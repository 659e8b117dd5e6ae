//! The board as the move heuristics see it: occupancy, food and hazards on bitboards
//! and a cell grid, the snakes' heads and tails, and the analyses built on them.
use vstd::prelude::*;
use std::collections::VecDeque;
use crate::api::{ApiGameState, ApiBattlesnake, ApiCoord, coord_of, tail_of};
use crate::bitboard::{Bitboard, BoardMasks, board_cells, cell_index, neighborhood, reachable, lemma_reachable_open_neighbors, flood_iter, lemma_flood_iter_open};
use crate::simulator::{api_cell, api_cells, hazard_damage_of, lemma_cell_in_word};
use crate::types::{Coord, Direction, dir_dx, dir_dy, dir_of_index, manhattan_spec};

verus! {

pub const CELL_OPEN: u8 = 0;

pub const CELL_BODY: u8 = 1;

pub const CELL_FOOD: u8 = 2;

pub const CELL_HAZARD: u8 = 3;

/// The head of an enemy snake.
pub struct EnemyHead {
    pub pos: Coord,
    pub length: i32,
    pub health: i32,
    pub id: String,
}

/// A snake on the board.
pub struct SnakeInfo {
    pub id: String,
    pub head: Coord,
    pub tail: Coord,
    pub length: i32,
    pub health: i32,
}

/// What a flood fill from a cell finds.
pub struct FloodFillResult {
    pub count: i32,
    pub has_tail_exit: bool,
    pub food_count: i32,
    pub exit_count: i32,
}

/// A food and how far and how risky it is.
#[derive(Clone, Copy)]
pub struct FoodInfo {
    pub food: Coord,
    pub dist: i32,
    pub penalty: i32,
}

pub struct Board {
    pub width: i32,
    pub height: i32,
    pub turn: i32,
    pub timeout: i32,
    pub hazard_damage: i32,
    pub ruleset: String,
    pub masks: BoardMasks,
    pub all_bodies: Bitboard,
    pub food_bb: Bitboard,
    pub hazard_bb: Bitboard,
    pub tail_freeing_bb: Bitboard,
    pub danger_zone_bb: Bitboard,
    pub enemy_reachable_bb: Bitboard,
    pub my_id: String,
    pub my_head: Coord,
    pub my_tail: Coord,
    pub my_length: i32,
    pub my_health: i32,
    pub enemy_heads: Vec<EnemyHead>,
    pub food: Vec<Coord>,
    pub all_snakes: Vec<SnakeInfo>,
    /// The kind of each cell, in row-major order.
    pub grid: Vec<u8>,
}

/// The enemy record of a snake of the protocol.
pub open spec fn enemy_of(s: ApiBattlesnake) -> EnemyHead {
    EnemyHead { pos: coord_of(s.head), length: s.length, health: s.health, id: s.id }
}

/// The board record of a snake of the protocol.
pub open spec fn info_of(s: ApiBattlesnake) -> SnakeInfo {
    SnakeInfo { id: s.id, head: coord_of(s.head), tail: coord_of(tail_of(s)), length: s.length, health: s.health }
}

/// The snakes other than the one with id `me`, in order, as enemy records.
pub open spec fn enemy_list(s: Seq<ApiBattlesnake>, me: Seq<char>) -> Seq<EnemyHead>
    decreases s.len(),
{
    if s.len() == 0 {
        Seq::empty()
    } else if s.last().id@ != me {
        enemy_list(s.drop_last(), me).push(enemy_of(s.last()))
    } else {
        enemy_list(s.drop_last(), me)
    }
}

/// The cells of the body segments of every snake, where the cell index
/// `y * width + x` lies on the board (other segments are skipped).
pub open spec fn body_cells(gs: ApiGameState) -> Set<int> {
    Set::new(
        |p: int|
            0 <= p < gs.board.width * gs.board.height && exists|i: int, k: int|
                0 <= i < gs.board.snakes.len() && 0 <= k < gs.board.snakes[i].body.len() && #[trigger] api_cell(
                    gs.board.snakes[i].body[k],
                    gs.board.width as int,
                ) == p,
    )
}

/// The tail leaves its cell this turn: the last two segments differ.
pub open spec fn tail_moves(s: ApiBattlesnake) -> bool {
    let n = s.body.len() as int;
    n >= 2 && !(s.body[n - 2].x == s.body[n - 1].x && s.body[n - 2].y == s.body[n - 1].y)
}

/// The tails that leave their cell this turn, where the cell index lies on the board.
pub open spec fn freeing_tails(gs: ApiGameState) -> Set<int> {
    Set::new(
        |p: int|
            0 <= p < gs.board.width * gs.board.height && exists|i: int|
                0 <= i < gs.board.snakes.len() && tail_moves(gs.board.snakes[i]) && #[trigger] api_cell(
                    gs.board.snakes[i].body[gs.board.snakes[i].body.len() - 1],
                    gs.board.width as int,
                ) == p,
    )
}

/// The cells next to the head of one of the enemies `e` for which `pick` holds.
pub open spec fn heads_reach(e: Seq<EnemyHead>, w: int, h: int, pick: spec_fn(EnemyHead) -> bool) -> Set<int> {
    Set::new(
        |p: int|
            exists|i: int|
                0 <= i < e.len() && pick(e[i]) && #[trigger] neighborhood(
                    Set::<int>::empty().insert(cell_index(e[i].pos.x as int, e[i].pos.y as int, w)),
                    w,
                    h,
                ).contains(p),
    )
}

/// The kind of a cell in the grid: body over food over hazard over open.
pub open spec fn grid_cell(gs: ApiGameState, p: int) -> u8 {
    let w = gs.board.width as int;
    if body_cells(gs).contains(p) {
        CELL_BODY
    } else if api_cells(gs.board.food@, w).contains(p) {
        CELL_FOOD
    } else if api_cells(gs.board.hazards@, w).contains(p) {
        CELL_HAZARD
    } else {
        CELL_OPEN
    }
}

/// A point on a `w` x `h` board.
pub open spec fn on_board(c: Coord, w: int, h: int) -> bool {
    0 <= c.x < w && 0 <= c.y < h
}

impl Board {
    /// The cell grid, one entry per cell.
    pub open spec fn cells(&self) -> Seq<u8> {
        self.grid@
    }

    /// The board has at most 128 cells and fewer than 128 columns, matches its
    /// masks and grid, and every point it records lies on it.
    pub open spec fn wf(&self) -> bool {
        let w = self.width as int;
        let h = self.height as int;
        &&& 1 <= w
        &&& 1 <= h
        &&& w * h <= 128
        &&& w < 128
        &&& h <= 128
        &&& self.masks.wf()
        &&& self.masks.width == w
        &&& self.masks.height == h
        &&& self.cells().len() == w * h
        &&& on_board(self.my_head, w, h)
        &&& on_board(self.my_tail, w, h)
        &&& forall|i: int| 0 <= i < self.enemy_heads.len() ==> on_board(#[trigger] self.enemy_heads@[i].pos, w, h)
        &&& forall|i: int| 0 <= i < self.all_snakes.len() ==> on_board(#[trigger] self.all_snakes@[i].head, w, h)
        &&& forall|i: int| 0 <= i < self.food.len() ==> on_board(#[trigger] self.food@[i], w, h)
    }

    /// The cells that cannot be entered: bodies, except tails that move away.
    pub open spec fn blocked(&self) -> Set<int> {
        self.all_bodies@.difference(self.tail_freeing_bb@)
    }

    /// The index of a point on this board.
    pub open spec fn idx(&self, x: int, y: int) -> int {
        cell_index(x, y, self.width as int)
    }
}

} // verus!

verus! {

impl Board {
    /// The board of a game state.
    pub fn new(gs: &ApiGameState) -> (b: Board)
        requires
            gs.board_ready(),
            gs.board.width < 128,
        ensures
            b.wf(),
            b.width == gs.board.width,
            b.height == gs.board.height,
            b.turn == gs.turn,
            b.timeout == gs.game.timeout,
            b.hazard_damage == hazard_damage_of(*gs),
            b.ruleset@ == gs.game.ruleset.name@,
            b.my_id@ == gs.you.id@,
            b.my_head == coord_of(gs.you.head),
            b.my_tail == coord_of(tail_of(gs.you)),
            b.my_length == gs.you.length,
            b.my_health == gs.you.health,
            b.cells() == Seq::new((gs.board.width * gs.board.height) as nat, |p: int| grid_cell(*gs, p)),
            b.all_bodies@ == body_cells(*gs),
            b.tail_freeing_bb@ == freeing_tails(*gs),
            b.food_bb@ == api_cells(gs.board.food@, gs.board.width as int),
            b.hazard_bb@ == api_cells(gs.board.hazards@, gs.board.width as int),
            b.enemy_heads@ == enemy_list(gs.board.snakes@, gs.you.id@),
            b.all_snakes@ == gs.board.snakes@.map_values(|s: ApiBattlesnake| info_of(s)),
            b.food@ == gs.board.food@.map_values(|c: ApiCoord| coord_of(c)),
            b.enemy_reachable_bb@ == heads_reach(
                enemy_list(gs.board.snakes@, gs.you.id@),
                gs.board.width as int,
                gs.board.height as int,
                |e: EnemyHead| true,
            ),
            b.danger_zone_bb@ == heads_reach(
                enemy_list(gs.board.snakes@, gs.you.id@),
                gs.board.width as int,
                gs.board.height as int,
                |e: EnemyHead| e.length >= gs.you.length,
            ),
            b.zones_from_heads(),
    {
        let w = gs.board.width;
        let h = gs.board.height;
        assert(h <= 128) by (nonlinear_arith)
            requires
                1 <= w,
                w * h <= 128,
        ;
        let timeout = gs.game.timeout;
        let hazard_damage: i32 = match &gs.game.ruleset.settings {
            Some(s) => match s.hazard_damage_per_turn {
                Some(d) => d,
                None => 14,
            },
            None => 14,
        };
        let masks = if w * h <= 128 {
            BoardMasks::new(w as u32, h as u32)
        } else {
            BoardMasks::new(11, 11)
        };
        let mut food: Vec<Coord> = Vec::new();
        let mut fi: usize = 0;
        while fi < gs.board.food.len()
            invariant
                fi <= gs.board.food.len(),
                food@ == gs.board.food@.take(fi as int).map_values(|c: ApiCoord| coord_of(c)),
            decreases gs.board.food.len() - fi,
        {
            food.push(Coord::new(gs.board.food[fi].x, gs.board.food[fi].y));
            fi += 1;
            assert(food@ =~= gs.board.food@.take(fi as int).map_values(|c: ApiCoord| coord_of(c)));
        }
        assert(gs.board.food@.take(fi as int) =~= gs.board.food@);
        let grid = vec![CELL_OPEN; (w * h) as usize];
        assert(grid@ =~= Seq::new((gs.board.width * gs.board.height) as nat, |p: int| CELL_OPEN));
        let mut board = Board {
            width: w,
            height: h,
            turn: gs.turn,
            timeout,
            hazard_damage,
            ruleset: gs.game.ruleset.name.clone(),
            masks,
            all_bodies: Bitboard::empty(),
            food_bb: Bitboard::empty(),
            hazard_bb: Bitboard::empty(),
            tail_freeing_bb: Bitboard::empty(),
            danger_zone_bb: Bitboard::empty(),
            enemy_reachable_bb: Bitboard::empty(),
            my_id: gs.you.id.clone(),
            my_head: gs.you.head_coord(),
            my_tail: gs.you.tail_coord(),
            my_length: gs.you.length,
            my_health: gs.you.health,
            enemy_heads: Vec::new(),
            food,
            all_snakes: Vec::new(),
            grid,
        };
        proof {
            lemma_enemy_list_heads(gs.board.snakes@, gs.you.id@);
        }
        board.build_grid(gs);
        proof {
            let es = enemy_list(gs.board.snakes@, gs.you.id@);
            assert forall|i: int| 0 <= i < board.enemy_heads.len() implies on_board(
                #[trigger] board.enemy_heads@[i].pos, w as int, h as int) by {
                let j = choose|j: int| 0 <= j < gs.board.snakes@.len() && #[trigger] es[i] == enemy_of(#[trigger] gs.board.snakes@[j]);
                assert(gs.board.snakes[j].head.on_board(w as int, h as int));
            }
        }
        board.compute_danger_zones();
        proof {
            assert forall|i: int| 0 <= i < board.all_snakes.len() implies on_board(
                #[trigger] board.all_snakes@[i].head, w as int, h as int) by {
                assert(gs.board.snakes[i].head.on_board(w as int, h as int));
            }
            assert forall|i: int| 0 <= i < board.food.len() implies on_board(
                #[trigger] board.food@[i], w as int, h as int) by {
                assert(gs.board.food[i].on_board(w as int, h as int));
            }
            if gs.you.body.len() > 0 {
                assert(gs.you.body[gs.you.body.len() - 1].on_board(w as int, h as int));
            }
        }
        board
    }
}

} // verus!

verus! {

/// The body segments of the first `si` snakes.
pub open spec fn bodies_upto(gs: ApiGameState, si: int) -> Set<int> {
    Set::new(
        |p: int|
            0 <= p < gs.board.width * gs.board.height && exists|i: int, k: int|
                0 <= i < si && 0 <= k < gs.board.snakes[i].body.len() && #[trigger] api_cell(
                    gs.board.snakes[i].body[k],
                    gs.board.width as int,
                ) == p,
    )
}

/// The moving tails of the first `si` snakes.
pub open spec fn freeing_upto(gs: ApiGameState, si: int) -> Set<int> {
    Set::new(
        |p: int|
            0 <= p < gs.board.width * gs.board.height && exists|i: int|
                0 <= i < si && tail_moves(gs.board.snakes[i]) && #[trigger] api_cell(
                    gs.board.snakes[i].body[gs.board.snakes[i].body.len() - 1],
                    gs.board.width as int,
                ) == p,
    )
}

/// The cells of the first `k` coordinates of a list.
pub open spec fn cells_upto(cs: Seq<ApiCoord>, w: int, k: int) -> Set<int> {
    Set::new(|p: int| exists|i: int| 0 <= i < k && #[trigger] api_cell(cs[i], w) == p)
}

/// Every field but the grid, the occupancy, food and hazard bitboards and the snake
/// lists is the same in `a` and `b`.
pub open spec fn same_setup(a: Board, b: Board) -> bool {
    &&& a.width == b.width
    &&& a.height == b.height
    &&& a.turn == b.turn
    &&& a.timeout == b.timeout
    &&& a.hazard_damage == b.hazard_damage
    &&& a.ruleset == b.ruleset
    &&& a.masks == b.masks
    &&& a.danger_zone_bb == b.danger_zone_bb
    &&& a.enemy_reachable_bb == b.enemy_reachable_bb
    &&& a.my_id == b.my_id
    &&& a.my_head == b.my_head
    &&& a.my_tail == b.my_tail
    &&& a.my_length == b.my_length
    &&& a.my_health == b.my_health
    &&& a.food == b.food
}

/// The enemy records come from snakes of the list, and there are no more of them.
pub proof fn lemma_enemy_list_heads(s: Seq<ApiBattlesnake>, me: Seq<char>)
    ensures
        enemy_list(s, me).len() <= s.len(),
        forall|i: int|
            0 <= i < enemy_list(s, me).len() ==> exists|j: int| 0 <= j < s.len() && #[trigger] enemy_list(s, me)[i] == enemy_of(#[trigger] s[j]),
    decreases s.len(),
{
    if s.len() > 0 {
        lemma_enemy_list_heads(s.drop_last(), me);
        let r = enemy_list(s.drop_last(), me);
        assert forall|i: int| 0 <= i < enemy_list(s, me).len() implies exists|j: int| 0 <= j < s.len() && #[trigger] enemy_list(s, me)[i] == enemy_of(#[trigger] s[j]) by {
            if i < r.len() {
                let j = choose|j: int| 0 <= j < s.drop_last().len() && #[trigger] r[i] == enemy_of(#[trigger] s.drop_last()[j]);
                assert(s[j] == s.drop_last()[j]);
            } else {
                assert(enemy_list(s, me)[i] == enemy_of(s[s.len() - 1]));
            }
        }
    }
}

impl Board {
    /// Fills the grid, the occupancy, food and hazard bitboards, and the snake lists.
    fn build_grid(&mut self, gs: &ApiGameState)
        requires
            gs.board_ready(),
            old(self).width == gs.board.width,
            old(self).height == gs.board.height,
            old(self).my_id@ == gs.you.id@,
            old(self).grid@ == Seq::new((gs.board.width * gs.board.height) as nat, |p: int| CELL_OPEN),
            old(self).all_bodies@ == Set::<int>::empty(),
            old(self).tail_freeing_bb@ == Set::<int>::empty(),
            old(self).food_bb@ == Set::<int>::empty(),
            old(self).hazard_bb@ == Set::<int>::empty(),
            old(self).enemy_heads@ == Seq::<EnemyHead>::empty(),
            old(self).all_snakes@ == Seq::<SnakeInfo>::empty(),
        ensures
            same_setup(*final(self), *old(self)),
            final(self).grid@ == Seq::new((gs.board.width * gs.board.height) as nat, |p: int| grid_cell(*gs, p)),
            final(self).all_bodies@ == body_cells(*gs),
            final(self).tail_freeing_bb@ == freeing_tails(*gs),
            final(self).food_bb@ == api_cells(gs.board.food@, gs.board.width as int),
            final(self).hazard_bb@ == api_cells(gs.board.hazards@, gs.board.width as int),
            final(self).enemy_heads@ == enemy_list(gs.board.snakes@, gs.you.id@),
            final(self).all_snakes@ == gs.board.snakes@.map_values(|s: ApiBattlesnake| info_of(s)),
    {
        let w = self.width as u32;
        let ghost gw = gs.board.width as int;
        let ghost gh = gs.board.height as int;
        let ghost n = gw * gh;
        let mut si: usize = 0;
        while si < gs.board.snakes.len()
            invariant
                gs.board_ready(),
                gw == gs.board.width,
                gh == gs.board.height,
                n == gw * gh,
                w == gw,
                same_setup(*self, *old(self)),
                self.width == gw,
                self.height == gh,
                self.my_id@ == gs.you.id@,
                self.food_bb == old(self).food_bb,
                self.hazard_bb == old(self).hazard_bb,
                si <= gs.board.snakes.len(),
                self.grid@.len() == n,
                forall|p: int| 0 <= p < n ==> #[trigger] self.grid@[p] == (if bodies_upto(*gs, si as int).contains(p) {
                    CELL_BODY
                } else {
                    CELL_OPEN
                }),
                self.all_bodies@ == bodies_upto(*gs, si as int),
                self.tail_freeing_bb@ == freeing_upto(*gs, si as int),
                self.enemy_heads@ == enemy_list(gs.board.snakes@.take(si as int), gs.you.id@),
                self.all_snakes@ == gs.board.snakes@.take(si as int).map_values(|s: ApiBattlesnake| info_of(s)),
            decreases gs.board.snakes.len() - si,
        {
            let snake = &gs.board.snakes[si];
            let nb = snake.body.len();
            let ghost grid0 = self.grid@;
            let ghost bodies0 = self.all_bodies@;
            let ghost tails0 = self.tail_freeing_bb@;
            let mut i: usize = 0;
            while i < nb
                invariant
                    gs.board_ready(),
                    gw == gs.board.width,
                    gh == gs.board.height,
                    n == gw * gh,
                    w == gw,
                    self.width == gw,
                    self.height == gh,
                    si < gs.board.snakes.len(),
                    *snake == gs.board.snakes[si as int],
                    nb == snake.body.len(),
                    same_setup(*self, *old(self)),
                    self.my_id@ == gs.you.id@,
                    self.food_bb == old(self).food_bb,
                    self.hazard_bb == old(self).hazard_bb,
                    self.enemy_heads@ == enemy_list(gs.board.snakes@.take(si as int), gs.you.id@),
                    self.all_snakes@ == gs.board.snakes@.take(si as int).map_values(|s: ApiBattlesnake| info_of(s)),
                    i <= nb,
                    self.grid@.len() == n,
                    forall|p: int| 0 <= p < n ==> #[trigger] self.grid@[p] == (if bodies_upto(*gs, si as int).contains(p)
                        || (exists|k: int| 0 <= k < i && #[trigger] api_cell(snake.body[k], gw) == p) {
                        CELL_BODY
                    } else {
                        CELL_OPEN
                    }),
                    forall|p: int| #[trigger] self.all_bodies@.contains(p) == (bodies_upto(*gs, si as int).contains(p)
                        || (0 <= p < n && exists|k: int| 0 <= k < i && #[trigger] api_cell(snake.body[k], gw) == p)),
                    forall|p: int| #[trigger] self.tail_freeing_bb@.contains(p) == (freeing_upto(*gs, si as int).contains(p)
                        || (0 <= p < n && i == nb && tail_moves(*snake) && api_cell(snake.body[nb - 1], gw) == p)),
                decreases nb - i,
            {
                let seg = snake.body[i];
                assert(seg.index_fits(gw));
                let idx = seg.y * self.width + seg.x;
                if idx < 0 || idx >= self.width * self.height {
                    i += 1;
                    continue;
                }
                let ghost prev_bodies = self.all_bodies@;
                let ghost prev_tails = self.tail_freeing_bb@;
                if i == nb - 1 {
                    let prev = if nb >= 2 {
                        snake.body[nb - 2]
                    } else {
                        seg
                    };
                    if prev.x == seg.x && prev.y == seg.y {
                        self.grid.set(idx as usize, CELL_BODY);
                        self.all_bodies = self.all_bodies.set_idx(idx as u32);
                    } else {
                        self.grid.set(idx as usize, CELL_BODY);
                        self.all_bodies = self.all_bodies.set_idx(idx as u32);
                        self.tail_freeing_bb = self.tail_freeing_bb.set_idx(idx as u32);
                    }
                } else {
                    self.grid.set(idx as usize, CELL_BODY);
                    self.all_bodies = self.all_bodies.set_idx(idx as u32);
                }
                assert(idx == api_cell(snake.body[i as int], gw));
                assert forall|p: int| 0 <= p < n implies #[trigger] self.grid@[p] == (if bodies_upto(*gs, si as int).contains(p)
                    || (exists|k: int| 0 <= k < i + 1 && #[trigger] api_cell(snake.body[k], gw) == p) {
                    CELL_BODY
                } else {
                    CELL_OPEN
                }) by {
                    if p == idx {
                        assert(api_cell(snake.body[i as int], gw) == p);
                    }
                }
                assert forall|p: int| #[trigger] self.all_bodies@.contains(p) == (bodies_upto(*gs, si as int).contains(p)
                    || (0 <= p < n && exists|k: int| 0 <= k < i + 1 && #[trigger] api_cell(snake.body[k], gw) == p)) by {
                    if p == idx {
                        assert(api_cell(snake.body[i as int], gw) == p);
                    }
                }
                i += 1;
            }
            let ghost si1 = si + 1;
            assert forall|p: int| #[trigger] bodies_upto(*gs, si1).contains(p) == (bodies_upto(*gs, si as int).contains(p)
                || (0 <= p < n && exists|k: int| 0 <= k < nb && #[trigger] api_cell(snake.body[k], gw) == p)) by {
                if bodies_upto(*gs, si1).contains(p) {
                    let (i2, k2) = choose|i2: int, k2: int|
                        0 <= i2 < si1 && 0 <= k2 < gs.board.snakes[i2].body.len() && #[trigger] api_cell(gs.board.snakes[i2].body[k2], gw) == p;
                    if i2 < si {
                        assert(bodies_upto(*gs, si as int).contains(p));
                    }
                }
                if exists|k: int| 0 <= k < nb && #[trigger] api_cell(snake.body[k], gw) == p {
                    let k = choose|k: int| 0 <= k < nb && #[trigger] api_cell(snake.body[k], gw) == p;
                    assert(api_cell(gs.board.snakes[si as int].body[k], gw) == p);
                }
            }
            assert(self.all_bodies@ =~= bodies_upto(*gs, si1));
            assert forall|p: int| #[trigger] freeing_upto(*gs, si1).contains(p) == (freeing_upto(*gs, si as int).contains(p)
                || (0 <= p < n && tail_moves(*snake) && api_cell(snake.body[nb - 1], gw) == p)) by {
                if freeing_upto(*gs, si1).contains(p) {
                    let i2 = choose|i2: int|
                        0 <= i2 < si1 && tail_moves(gs.board.snakes[i2]) && #[trigger] api_cell(gs.board.snakes[i2].body[gs.board.snakes[i2].body.len() - 1], gw) == p;
                    if i2 < si {
                        assert(freeing_upto(*gs, si as int).contains(p));
                    }
                }
            }
            assert(self.tail_freeing_bb@ =~= freeing_upto(*gs, si1));
            let h = Coord::new(snake.head.x, snake.head.y);
            let t = snake.tail_coord();
            let ghost take0 = gs.board.snakes@.take(si as int);
            let ghost take1 = gs.board.snakes@.take(si1);
            assert(take1.drop_last() =~= take0);
            assert(take1.last() == *snake);
            let ghost enemies0 = self.enemy_heads@;
            let ghost infos0 = self.all_snakes@;
            assert(take1.len() == take0.len() + 1);
            let is_me = *(&snake.id) == *(&self.my_id);
            if !is_me {
                assert(snake.id@ != gs.you.id@);
                assert(take1.last().id@ != gs.you.id@);
                let e = EnemyHead { pos: h, length: snake.length, health: snake.health, id: snake.id.clone() };
                assert(e == enemy_of(*snake));
                self.enemy_heads.push(e);
                let info = SnakeInfo { id: snake.id.clone(), head: h, tail: t, length: snake.length, health: snake.health };
                assert(info == info_of(*snake));
                self.all_snakes.push(info);
                assert(enemy_list(take1, gs.you.id@) == enemy_list(take0, gs.you.id@).push(enemy_of(*snake)));
            } else {
                assert(take1.last().id@ == gs.you.id@);
                let info = SnakeInfo { id: snake.id.clone(), head: h, tail: t, length: snake.length, health: snake.health };
                assert(info == info_of(*snake));
                self.all_snakes.push(info);
                assert(enemy_list(take1, gs.you.id@) == enemy_list(take0, gs.you.id@));
            }
            assert(self.all_snakes@ == infos0.push(info_of(*snake)));
            assert(self.enemy_heads@ =~= enemy_list(take1, gs.you.id@));
            assert(self.all_snakes@ =~= take1.map_values(|s: ApiBattlesnake| info_of(s)));
            si += 1;
        }
        assert(gs.board.snakes@.take(si as int) =~= gs.board.snakes@);
        assert(bodies_upto(*gs, si as int) =~= body_cells(*gs));
        assert(freeing_upto(*gs, si as int) =~= freeing_tails(*gs));
        let mut fi: usize = 0;
        while fi < gs.board.food.len()
            invariant
                gs.board_ready(),
                gw == gs.board.width,
                gh == gs.board.height,
                n == gw * gh,
                w == gw,
                self.width == gw,
                self.height == gh,
                same_setup(*self, *old(self)),
                self.hazard_bb == old(self).hazard_bb,
                fi <= gs.board.food.len(),
                self.grid@.len() == n,
                self.all_bodies@ == body_cells(*gs),
                self.tail_freeing_bb@ == freeing_tails(*gs),
                self.enemy_heads@ == enemy_list(gs.board.snakes@, gs.you.id@),
                self.all_snakes@ == gs.board.snakes@.map_values(|s: ApiBattlesnake| info_of(s)),
                forall|p: int| 0 <= p < n ==> #[trigger] self.grid@[p] == (if body_cells(*gs).contains(p) {
                    CELL_BODY
                } else if cells_upto(gs.board.food@, gw, fi as int).contains(p) {
                    CELL_FOOD
                } else {
                    CELL_OPEN
                }),
                self.food_bb@ == cells_upto(gs.board.food@, gw, fi as int),
            decreases gs.board.food.len() - fi,
        {
            let f = gs.board.food[fi];
            assert(f.on_board(gw, gh));
            proof {
                lemma_cell_in_word(f.x as int, f.y as int, gw, gh);
            }
            let idx = f.y * self.width + f.x;
            if idx >= 0 && idx < self.width * self.height && self.grid[idx as usize] == CELL_OPEN {
                self.grid.set(idx as usize, CELL_FOOD);
            }
            self.food_bb = self.food_bb.set_coord(f.x, f.y, w);
            assert(idx == api_cell(gs.board.food[fi as int], gw));
            assert forall|p: int| 0 <= p < n implies #[trigger] self.grid@[p] == (if body_cells(*gs).contains(p) {
                CELL_BODY
            } else if cells_upto(gs.board.food@, gw, fi + 1).contains(p) {
                CELL_FOOD
            } else {
                CELL_OPEN
            }) by {
                if p == idx {
                    assert(api_cell(gs.board.food[fi as int], gw) == p);
                }
                if cells_upto(gs.board.food@, gw, fi + 1).contains(p) && p != idx {
                    let k = choose|k: int| 0 <= k < fi + 1 && #[trigger] api_cell(gs.board.food@[k], gw) == p;
                    assert(k != fi);
                    assert(cells_upto(gs.board.food@, gw, fi as int).contains(p));
                }
            }
            assert forall|p: int| #[trigger] self.food_bb@.contains(p) == cells_upto(gs.board.food@, gw, fi + 1).contains(p) by {
                if p == idx {
                    assert(api_cell(gs.board.food@[fi as int], gw) == p);
                }
                if cells_upto(gs.board.food@, gw, fi + 1).contains(p) && p != idx {
                    let k = choose|k: int| 0 <= k < fi + 1 && #[trigger] api_cell(gs.board.food@[k], gw) == p;
                    assert(k != fi);
                }
            }
            assert(self.food_bb@ =~= cells_upto(gs.board.food@, gw, fi + 1));
            fi += 1;
        }
        assert(cells_upto(gs.board.food@, gw, fi as int) =~= api_cells(gs.board.food@, gw));
        assert(cells_upto(gs.board.hazards@, gw, 0) =~= Set::<int>::empty());
        assert(self.hazard_bb@ =~= cells_upto(gs.board.hazards@, gw, 0));
        let mut hi: usize = 0;
        while hi < gs.board.hazards.len()
            invariant
                gs.board_ready(),
                gw == gs.board.width,
                gh == gs.board.height,
                n == gw * gh,
                w == gw,
                self.width == gw,
                self.height == gh,
                same_setup(*self, *old(self)),
                hi <= gs.board.hazards.len(),
                self.grid@.len() == n,
                self.all_bodies@ == body_cells(*gs),
                self.tail_freeing_bb@ == freeing_tails(*gs),
                self.food_bb@ == api_cells(gs.board.food@, gw),
                self.enemy_heads@ == enemy_list(gs.board.snakes@, gs.you.id@),
                self.all_snakes@ == gs.board.snakes@.map_values(|s: ApiBattlesnake| info_of(s)),
                forall|p: int| 0 <= p < n ==> #[trigger] self.grid@[p] == (if body_cells(*gs).contains(p) {
                    CELL_BODY
                } else if api_cells(gs.board.food@, gw).contains(p) {
                    CELL_FOOD
                } else if cells_upto(gs.board.hazards@, gw, hi as int).contains(p) {
                    CELL_HAZARD
                } else {
                    CELL_OPEN
                }),
                self.hazard_bb@ == cells_upto(gs.board.hazards@, gw, hi as int),
            decreases gs.board.hazards.len() - hi,
        {
            let hz = gs.board.hazards[hi];
            assert(hz.on_board(gw, gh));
            proof {
                lemma_cell_in_word(hz.x as int, hz.y as int, gw, gh);
            }
            let idx = hz.y * self.width + hz.x;
            if idx >= 0 && idx < self.width * self.height && self.grid[idx as usize] == CELL_OPEN {
                self.grid.set(idx as usize, CELL_HAZARD);
            }
            self.hazard_bb = self.hazard_bb.set_coord(hz.x, hz.y, w);
            assert(idx == api_cell(gs.board.hazards[hi as int], gw));
            assert forall|p: int| 0 <= p < n implies #[trigger] self.grid@[p] == (if body_cells(*gs).contains(p) {
                CELL_BODY
            } else if api_cells(gs.board.food@, gw).contains(p) {
                CELL_FOOD
            } else if cells_upto(gs.board.hazards@, gw, hi + 1).contains(p) {
                CELL_HAZARD
            } else {
                CELL_OPEN
            }) by {
                if p == idx {
                    assert(api_cell(gs.board.hazards[hi as int], gw) == p);
                }
                if cells_upto(gs.board.hazards@, gw, hi + 1).contains(p) && p != idx {
                    let k = choose|k: int| 0 <= k < hi + 1 && #[trigger] api_cell(gs.board.hazards@[k], gw) == p;
                    assert(k != hi);
                    assert(cells_upto(gs.board.hazards@, gw, hi as int).contains(p));
                }
            }
            assert forall|p: int| #[trigger] self.hazard_bb@.contains(p) == cells_upto(gs.board.hazards@, gw, hi + 1).contains(p) by {
                if p == idx {
                    assert(api_cell(gs.board.hazards@[hi as int], gw) == p);
                }
                if cells_upto(gs.board.hazards@, gw, hi + 1).contains(p) && p != idx {
                    let k = choose|k: int| 0 <= k < hi + 1 && #[trigger] api_cell(gs.board.hazards@[k], gw) == p;
                    assert(k != hi);
                }
            }
            assert(self.hazard_bb@ =~= cells_upto(gs.board.hazards@, gw, hi + 1));
            hi += 1;
        }
        assert(cells_upto(gs.board.hazards@, gw, hi as int) =~= api_cells(gs.board.hazards@, gw));
        assert(self.grid@ =~= Seq::new((gs.board.width * gs.board.height) as nat, |p: int| grid_cell(*gs, p)));
    }
}

} // verus!

verus! {

impl Board {
    /// Marks the cells next to enemy heads, and among them those next to an enemy
    /// at least as long as me.
    fn compute_danger_zones(&mut self)
        requires
            old(self).masks.wf(),
            old(self).masks.width == old(self).width,
            old(self).masks.height == old(self).height,
            old(self).width < 128,
            forall|i: int|
                0 <= i < old(self).enemy_heads.len() ==> on_board(
                    #[trigger] old(self).enemy_heads@[i].pos,
                    old(self).width as int,
                    old(self).height as int,
                ),
            old(self).danger_zone_bb@ == Set::<int>::empty(),
            old(self).enemy_reachable_bb@ == Set::<int>::empty(),
        ensures
            *final(self) == (Board {
                danger_zone_bb: final(self).danger_zone_bb,
                enemy_reachable_bb: final(self).enemy_reachable_bb,
                ..*old(self)
            }),
            final(self).enemy_reachable_bb@ == heads_reach(
                old(self).enemy_heads@,
                old(self).width as int,
                old(self).height as int,
                |e: EnemyHead| true,
            ),
            final(self).danger_zone_bb@ == heads_reach(
                old(self).enemy_heads@,
                old(self).width as int,
                old(self).height as int,
                |e: EnemyHead| e.length >= old(self).my_length,
            ),
    {
        let w = self.width as u32;
        let ghost gw = self.width as int;
        let ghost gh = self.height as int;
        let mut reach_acc = self.enemy_reachable_bb;
        let mut danger_acc = self.danger_zone_bb;
        let mut i: usize = 0;
        while i < self.enemy_heads.len()
            invariant
                self.masks.wf(),
                self.masks.width == gw,
                self.masks.height == gh,
                gw == self.width,
                gh == self.height,
                w == gw,
                gw < 128,
                forall|j: int| 0 <= j < self.enemy_heads.len() ==> on_board(#[trigger] self.enemy_heads@[j].pos, gw, gh),
                i <= self.enemy_heads.len(),
                reach_acc@ == heads_reach(self.enemy_heads@.take(i as int), gw, gh, |e: EnemyHead| true),
                danger_acc@ == heads_reach(self.enemy_heads@.take(i as int), gw, gh, |e: EnemyHead| e.length >= self.my_length),
            decreases self.enemy_heads.len() - i,
        {
            let eh = &self.enemy_heads[i];
            assert(on_board(eh.pos, gw, gh));
            proof {
                lemma_cell_in_word(eh.pos.x as int, eh.pos.y as int, gw, gh);
            }
            let head_bb = Bitboard::from_coord(eh.pos.x, eh.pos.y, w);
            proof {
                assert(head_bb@.subset_of(self.masks.cells()));
            }
            let ex = head_bb.expand(&self.masks);
            let board = Bitboard(self.masks.board_mask);
            let reachable = Bitboard(ex.0 & board.0);
            proof {
                crate::bits::lemma_bit_and(ex.0, board.0);
                assert(reachable@ =~= ex@);
            }
            let ghost prev_reach = reach_acc@;
            let ghost prev_danger = danger_acc@;
            proof {
                crate::bits::lemma_bit_or(reach_acc.0, reachable.0);
            }
            reach_acc = Bitboard(reach_acc.0 | reachable.0);
            let ghost t0 = self.enemy_heads@.take(i as int);
            let ghost t1 = self.enemy_heads@.take(i + 1);
            assert forall|p: int| #[trigger] reach_acc@.contains(p) == heads_reach(t1, gw, gh, |e: EnemyHead| true).contains(p) by {
                if heads_reach(t1, gw, gh, |e: EnemyHead| true).contains(p) {
                    let j = choose|j: int|
                        0 <= j < t1.len() && (|e: EnemyHead| true)(t1[j]) && #[trigger] neighborhood(
                            Set::<int>::empty().insert(cell_index(t1[j].pos.x as int, t1[j].pos.y as int, gw)), gw, gh).contains(p);
                    if j < i {
                        assert(t0[j] == t1[j]);
                    }
                }
                if prev_reach.contains(p) {
                    let j = choose|j: int|
                        0 <= j < t0.len() && (|e: EnemyHead| true)(t0[j]) && #[trigger] neighborhood(
                            Set::<int>::empty().insert(cell_index(t0[j].pos.x as int, t0[j].pos.y as int, gw)), gw, gh).contains(p);
                    assert(t0[j] == t1[j]);
                }
                if reachable@.contains(p) {
                    assert(t1[i as int] == *eh);
                }
            }
            assert(reach_acc@ =~= heads_reach(t1, gw, gh, |e: EnemyHead| true));
            if eh.length >= self.my_length {
                proof {
                    crate::bits::lemma_bit_or(danger_acc.0, reachable.0);
                }
                danger_acc = Bitboard(danger_acc.0 | reachable.0);
            }
            assert forall|p: int| #[trigger] danger_acc@.contains(p) == heads_reach(t1, gw, gh, |e: EnemyHead| e.length >= self.my_length).contains(p) by {
                if heads_reach(t1, gw, gh, |e: EnemyHead| e.length >= self.my_length).contains(p) {
                    let j = choose|j: int|
                        0 <= j < t1.len() && (|e: EnemyHead| e.length >= self.my_length)(t1[j]) && #[trigger] neighborhood(
                            Set::<int>::empty().insert(cell_index(t1[j].pos.x as int, t1[j].pos.y as int, gw)), gw, gh).contains(p);
                    if j < i {
                        assert(t0[j] == t1[j]);
                    }
                }
                if prev_danger.contains(p) {
                    let j = choose|j: int|
                        0 <= j < t0.len() && (|e: EnemyHead| e.length >= self.my_length)(t0[j]) && #[trigger] neighborhood(
                            Set::<int>::empty().insert(cell_index(t0[j].pos.x as int, t0[j].pos.y as int, gw)), gw, gh).contains(p);
                    assert(t0[j] == t1[j]);
                }
                if reachable@.contains(p) && eh.length >= self.my_length {
                    assert(t1[i as int] == *eh);
                }
            }
            assert(danger_acc@ =~= heads_reach(t1, gw, gh, |e: EnemyHead| e.length >= self.my_length));
            i += 1;
        }
        assert(self.enemy_heads@.take(i as int) =~= self.enemy_heads@);
        self.enemy_reachable_bb = reach_acc;
        self.danger_zone_bb = danger_acc;
    }
}

} // verus!

verus! {

/// A coordinate that can move one step either way and stay an `i32`.
pub open spec fn steppable(v: int) -> bool {
    i32::MIN < v < i32::MAX
}

/// The number of enemies in `e` whose head is next to cell `p`.
pub open spec fn threats(e: Seq<EnemyHead>, w: int, h: int, p: int) -> nat
    decreases e.len(),
{
    if e.len() == 0 {
        0
    } else {
        threats(e.drop_last(), w, h, p) + (if neighborhood(
            Set::<int>::empty().insert(cell_index(e.last().pos.x as int, e.last().pos.y as int, w)),
            w,
            h,
        ).contains(p) {
            1nat
        } else {
            0nat
        })
    }
}

/// A set that is not empty has an element.
pub proof fn lemma_nonempty_has(s: Set<int>)
    requires
        s != Set::<int>::empty(),
    ensures
        s.contains(s.choose()),
{
    if !s.contains(s.choose()) {
        assert(s =~= Set::<int>::empty());
    }
}


/// Two cells of a board with the same index are the same cell.
proof fn lemma_cell_unique(x1: int, y1: int, x2: int, y2: int, w: int)
    requires
        0 <= x1 < w,
        0 <= x2 < w,
        0 <= y1,
        0 <= y2,
        cell_index(x1, y1, w) == cell_index(x2, y2, w),
    ensures
        x1 == x2,
        y1 == y2,
{
    crate::types::lemma_idx_round_trip(x1, y1, w);
    crate::types::lemma_idx_round_trip(x2, y2, w);
}

/// The cell of `(x, y)` is next to the cell of `(px, py)` exactly when the two
/// points are at Manhattan distance one.
pub proof fn lemma_adjacent_cells(px: int, py: int, x: int, y: int, w: int, h: int)
    requires
        0 <= px < w,
        0 <= x < w,
        0 <= py < h,
        0 <= y < h,
    ensures
        neighborhood(Set::<int>::empty().insert(cell_index(px, py, w)), w, h).contains(cell_index(x, y, w))
            <==> manhattan_spec(px, py, x, y) == 1,
{
    let c = cell_index(px, py, w);
    let i = cell_index(x, y, w);
    assert(0 <= i < w * h) by (nonlinear_arith)
        requires
            0 <= x < w,
            0 <= y < h,
            i == y * w + x,
    ;
    assert(i - w == (y - 1) * w + x && i + w == (y + 1) * w + x) by (nonlinear_arith)
        requires
            i == y * w + x,
    ;
    assert(y >= 1 ==> i >= w) by (nonlinear_arith)
        requires
            i == y * w + x,
            0 <= x,
            w > 0,
    ;
    assert(y == 0 ==> i < w) by (nonlinear_arith)
        requires
            i == y * w + x,
            x < w,
    ;
    assert(y + 1 < h ==> i + w < w * h) by (nonlinear_arith)
        requires
            i + w == (y + 1) * w + x,
            x < w,
            0 <= x,
    ;
    assert(y + 1 >= h ==> i + w >= w * h) by (nonlinear_arith)
        requires
            i + w == (y + 1) * w + x,
            0 <= x,
            w > 0,
    ;
    crate::types::lemma_idx_round_trip(x, y, w);
    assert(i % w == x);
    assert(i - 1 == cell_index(x - 1, y, w) && i + 1 == cell_index(x + 1, y, w));
    let n = neighborhood(Set::<int>::empty().insert(c), w, h);
    if n.contains(i) {
        if i >= w && c == i - w {
            lemma_cell_unique(x, y - 1, px, py, w);
        } else if i + w < w * h && c == i + w {
            lemma_cell_unique(x, y + 1, px, py, w);
        } else if i % w != 0 && c == i - 1 {
            lemma_cell_unique(x - 1, y, px, py, w);
        } else {
            lemma_cell_unique(x + 1, y, px, py, w);
        }
    }
    if manhattan_spec(px, py, x, y) == 1 {
        if y == py + 1 {
            assert(c == i - w);
        } else if y + 1 == py {
            assert(c == i + w);
        } else if x == px + 1 {
            assert(c == i - 1);
        } else {
            assert(c == i + 1);
        }
        assert(n.contains(i));
    }
}

/// Counting the members of a set of cells below `n` gives its size.
proof fn lemma_count_where_set(n: int, s: Set<int>)
    requires
        0 <= n,
        forall|c: int| #[trigger] s.contains(c) ==> 0 <= c < n,
    ensures
        s.finite(),
        count_where(n, |c: int| s.contains(c)) == s.len(),
    decreases n,
{
    vstd::set_lib::lemma_int_range(0, n);
    assert(s.subset_of(vstd::set_lib::set_int_range(0, n)));
    vstd::set_lib::lemma_len_subset(s, vstd::set_lib::set_int_range(0, n));
    if n > 0 {
        let t = s.remove(n - 1);
        lemma_count_where_set(n - 1, t);
        lemma_count_where_agree(n - 1, |c: int| s.contains(c), |c: int| t.contains(c));
        if s.contains(n - 1) {
            assert(s.len() == t.len() + 1);
        } else {
            assert(t =~= s);
        }
    } else {
        assert(s =~= Set::<int>::empty());
    }
}

/// A flood fill only depends on the seed cells that are open.
proof fn lemma_flood_iter_same_seed(a: Set<int>, b: Set<int>, open: Set<int>, w: int, h: int)
    requires
        a.intersect(open) == b.intersect(open),
    ensures
        forall|k: nat| #[trigger] flood_iter(a, open, w, h, k) == flood_iter(b, open, w, h, k),
{
    assert forall|k: nat| #[trigger] flood_iter(a, open, w, h, k) == flood_iter(b, open, w, h, k) by {
        lemma_flood_iter_same_seed_at(a, b, open, w, h, k);
    }
}

proof fn lemma_flood_iter_same_seed_at(a: Set<int>, b: Set<int>, open: Set<int>, w: int, h: int, k: nat)
    requires
        a.intersect(open) == b.intersect(open),
    ensures
        flood_iter(a, open, w, h, k) == flood_iter(b, open, w, h, k),
    decreases k,
{
    if k > 0 {
        lemma_flood_iter_same_seed_at(a, b, open, w, h, (k - 1) as nat);
    }
}

/// Counting with two predicates that agree below `n` gives the same number.
proof fn lemma_count_where_agree(n: int, f: spec_fn(int) -> bool, g: spec_fn(int) -> bool)
    requires
        forall|i: int| 0 <= i < n ==> #[trigger] f(i) == g(i),
    ensures
        count_where(n, f) == count_where(n, g),
    decreases n,
{
    if n > 0 {
        lemma_count_where_agree(n - 1, f, g);
    }
}

/// The enemies next to cell `p` are counted once each: there are no more than
/// there are enemies, and there is one exactly when `p` is next to some enemy head.
pub proof fn lemma_threats_reach(e: Seq<EnemyHead>, w: int, h: int, p: int)
    ensures
        threats(e, w, h, p) <= e.len(),
        (threats(e, w, h, p) > 0) == heads_reach(e, w, h, |x: EnemyHead| true).contains(p),
    decreases e.len(),
{
    if e.len() > 0 {
        let d = e.drop_last();
        lemma_threats_reach(d, w, h, p);
        let nb = |q: EnemyHead| neighborhood(Set::<int>::empty().insert(cell_index(q.pos.x as int, q.pos.y as int, w)), w, h);
        if heads_reach(e, w, h, |x: EnemyHead| true).contains(p) {
            let i = choose|i: int|
                0 <= i < e.len() && (|x: EnemyHead| true)(e[i]) && #[trigger] neighborhood(
                    Set::<int>::empty().insert(cell_index(e[i].pos.x as int, e[i].pos.y as int, w)),
                    w,
                    h,
                ).contains(p);
            if i < e.len() - 1 {
                assert(d[i] == e[i]);
                assert(heads_reach(d, w, h, |x: EnemyHead| true).contains(p));
            }
        }
        if heads_reach(d, w, h, |x: EnemyHead| true).contains(p) {
            let i = choose|i: int|
                0 <= i < d.len() && (|x: EnemyHead| true)(d[i]) && #[trigger] neighborhood(
                    Set::<int>::empty().insert(cell_index(d[i].pos.x as int, d[i].pos.y as int, w)),
                    w,
                    h,
                ).contains(p);
            assert(d[i] == e[i]);
            assert(heads_reach(e, w, h, |x: EnemyHead| true).contains(p));
        }
        if nb(e.last()).contains(p) {
            assert(e[e.len() - 1] == e.last());
            assert(heads_reach(e, w, h, |x: EnemyHead| true).contains(p));
        }
    }
}

/// The enemies whose head is at Manhattan distance one from `(x, y)`, counted over
/// the first `n` entries of `e`.
pub open spec fn adjacent_heads(e: Seq<EnemyHead>, x: int, y: int, n: int) -> nat {
    count_where(n, |i: int| manhattan_spec(e[i].pos.x as int, e[i].pos.y as int, x, y) == 1)
}

/// On the board, the threat count of a cell is the number of enemies whose head is
/// at Manhattan distance one from it.
pub proof fn lemma_threats_by_distance(e: Seq<EnemyHead>, w: int, h: int, x: int, y: int)
    requires
        0 <= x < w,
        0 <= y < h,
        forall|i: int| 0 <= i < e.len() ==> on_board(#[trigger] e[i].pos, w, h),
    ensures
        threats(e, w, h, cell_index(x, y, w)) == adjacent_heads(e, x, y, e.len() as int),
    decreases e.len(),
{
    if e.len() > 0 {
        let d = e.drop_last();
        assert forall|i: int| 0 <= i < d.len() implies on_board(#[trigger] d[i].pos, w, h) by {
            assert(d[i] == e[i]);
        }
        lemma_threats_by_distance(d, w, h, x, y);
        lemma_count_where_agree(
            d.len() as int,
            |i: int| manhattan_spec(d[i].pos.x as int, d[i].pos.y as int, x, y) == 1,
            |i: int| manhattan_spec(e[i].pos.x as int, e[i].pos.y as int, x, y) == 1,
        );
        assert(on_board(e[e.len() - 1].pos, w, h));
        assert(e.last() == e[e.len() - 1]);
        lemma_adjacent_cells(e.last().pos.x as int, e.last().pos.y as int, x, y, w, h);
    }
}

/// The Manhattan distance between two points, in 64-bit arithmetic, where it
/// cannot overflow.
fn distance(x1: i32, y1: i32, x2: i32, y2: i32) -> (d: i64)
    ensures
        d == manhattan_spec(x1 as int, y1 as int, x2 as int, y2 as int),
{
    let dx = x1 as i64 - x2 as i64;
    let dy = y1 as i64 - y2 as i64;
    let ax: i64 = if dx >= 0 { dx } else { -dx };
    let ay: i64 = if dy >= 0 { dy } else { -dy };
    ax + ay
}

impl Board {
    /// The cells reachable from `(x, y)` without entering a blocked cell.
    pub open spec fn region(&self, x: int, y: int) -> Set<int> {
        reachable(
            Set::<int>::empty().insert(cell_index(x, y, self.width as int)),
            board_cells(self.width as int, self.height as int).difference(self.blocked()),
            self.width as int,
            self.height as int,
        )
    }

    /// The size of the region of `(x, y)`, or 0 off the board.
    pub open spec fn region_size(&self, x: int, y: int) -> int {
        if 0 <= x < self.width && 0 <= y < self.height {
            self.region(x, y).len() as int
        } else {
            0
        }
    }

    pub fn is_in_bounds(&self, x: i32, y: i32) -> (b: bool)
        ensures
            b == (0 <= x < self.width && 0 <= y < self.height),
    {
        x >= 0 && x < self.width && y >= 0 && y < self.height
    }

    /// The blocked cells, as a bitboard.
    fn blocked_bb(&self) -> (b: Bitboard)
        ensures
            b@ == self.blocked(),
    {
        proof {
            crate::bits::lemma_bit_not(self.tail_freeing_bb.0);
            crate::bits::lemma_bit_and(self.all_bodies.0, !self.tail_freeing_bb.0);
        }
        let b = Bitboard(self.all_bodies.0 & !self.tail_freeing_bb.0);
        assert(b@ =~= self.blocked());
        b
    }

    /// A cell on the board that is not blocked.
    pub fn is_safe(&self, x: i32, y: i32) -> (b: bool)
        requires
            self.wf(),
        ensures
            b == (0 <= x < self.width && 0 <= y < self.height && !self.blocked().contains(
                cell_index(x as int, y as int, self.width as int),
            )),
    {
        if !self.is_in_bounds(x, y) {
            return false;
        }
        proof {
            lemma_cell_in_word(x as int, y as int, self.width as int, self.height as int);
        }
        let w = self.width as u32;
        let blocked = self.blocked_bb();
        !blocked.test_coord(x, y, w)
    }

    /// A cell where a tail moves away this turn.
    pub fn is_tail_freeing(&self, x: i32, y: i32) -> (b: bool)
        requires
            0 <= x,
            0 <= y,
            0 <= self.width,
            cell_index(x as int, y as int, self.width as int) < 128,
        ensures
            b == self.tail_freeing_bb@.contains(cell_index(x as int, y as int, self.width as int)),
    {
        let w = self.width as u32;
        self.tail_freeing_bb.test_coord(x, y, w)
    }

    /// A cell on the board marked as food in the grid.
    pub fn is_food(&self, x: i32, y: i32) -> (b: bool)
        requires
            self.wf(),
        ensures
            b == (0 <= x < self.width && 0 <= y < self.height && self.cells()[cell_index(
                x as int,
                y as int,
                self.width as int,
            )] == CELL_FOOD),
    {
        if !self.is_in_bounds(x, y) {
            return false;
        }
        proof {
            lemma_cell_in_word(x as int, y as int, self.width as int, self.height as int);
        }
        self.grid[(y * self.width + x) as usize] == CELL_FOOD
    }

    /// A cell on the board marked as hazard in the grid.
    pub fn is_hazard(&self, x: i32, y: i32) -> (b: bool)
        requires
            self.wf(),
        ensures
            b == (0 <= x < self.width && 0 <= y < self.height && self.cells()[cell_index(
                x as int,
                y as int,
                self.width as int,
            )] == CELL_HAZARD),
    {
        if !self.is_in_bounds(x, y) {
            return false;
        }
        proof {
            lemma_cell_in_word(x as int, y as int, self.width as int, self.height as int);
        }
        self.grid[(y * self.width + x) as usize] == CELL_HAZARD
    }

    /// A cell next to the head of an enemy at least as long as me.
    pub fn is_in_danger_zone(&self, x: i32, y: i32) -> (b: bool)
        requires
            0 <= x,
            0 <= y,
            0 <= self.width,
            cell_index(x as int, y as int, self.width as int) < 128,
        ensures
            b == self.danger_zone_bb@.contains(cell_index(x as int, y as int, self.width as int)),
    {
        let w = self.width as u32;
        self.danger_zone_bb.test_coord(x, y, w)
    }

    /// A cell next to the head of an enemy.
    pub fn is_enemy_reachable(&self, x: i32, y: i32) -> (b: bool)
        requires
            0 <= x,
            0 <= y,
            0 <= self.width,
            cell_index(x as int, y as int, self.width as int) < 128,
        ensures
            b == self.enemy_reachable_bb@.contains(cell_index(x as int, y as int, self.width as int)),
    {
        let w = self.width as u32;
        self.enemy_reachable_bb.test_coord(x, y, w)
    }

    /// The danger zone and the reach of the enemies are the neighbourhoods of the
    /// enemy heads: of those at least my length, and of all of them.
    pub open spec fn zones_from_heads(&self) -> bool {
        &&& self.enemy_reachable_bb@ == heads_reach(
            self.enemy_heads@,
            self.width as int,
            self.height as int,
            |e: EnemyHead| true,
        )
        &&& self.danger_zone_bb@ == heads_reach(
            self.enemy_heads@,
            self.width as int,
            self.height as int,
            |e: EnemyHead| e.length >= self.my_length,
        )
    }

    /// A cell is in the danger zone exactly when the head of an enemy at least my
    /// length is at Manhattan distance one from it; such a cell is one an enemy can
    /// reach.
    pub proof fn lemma_danger_zone(&self, x: int, y: int)
        requires
            self.wf(),
            self.zones_from_heads(),
            0 <= x < self.width,
            0 <= y < self.height,
        ensures
            self.danger_zone_bb@.contains(cell_index(x, y, self.width as int)) <==> exists|i: int|
                0 <= i < self.enemy_heads.len() && #[trigger] self.enemy_heads@[i].length >= self.my_length
                    && manhattan_spec(
                    self.enemy_heads@[i].pos.x as int,
                    self.enemy_heads@[i].pos.y as int,
                    x,
                    y,
                ) == 1,
            self.danger_zone_bb@.contains(cell_index(x, y, self.width as int)) ==> self.enemy_reachable_bb@.contains(
                cell_index(x, y, self.width as int),
            ),
    {
        let w = self.width as int;
        let h = self.height as int;
        let e = self.enemy_heads@;
        let p = cell_index(x, y, w);
        if self.danger_zone_bb@.contains(p) {
            let i = choose|i: int|
                0 <= i < e.len() && (|q: EnemyHead| q.length >= self.my_length)(e[i]) && #[trigger] neighborhood(
                    Set::<int>::empty().insert(cell_index(e[i].pos.x as int, e[i].pos.y as int, w)),
                    w,
                    h,
                ).contains(p);
            assert(on_board(e[i].pos, w, h));
            lemma_adjacent_cells(e[i].pos.x as int, e[i].pos.y as int, x, y, w, h);
            assert(self.enemy_reachable_bb@.contains(p));
        }
        if exists|i: int|
            0 <= i < e.len() && #[trigger] e[i].length >= self.my_length && manhattan_spec(
                e[i].pos.x as int,
                e[i].pos.y as int,
                x,
                y,
            ) == 1 {
            let i = choose|i: int|
                0 <= i < e.len() && #[trigger] e[i].length >= self.my_length && manhattan_spec(
                    e[i].pos.x as int,
                    e[i].pos.y as int,
                    x,
                    y,
                ) == 1;
            assert(on_board(e[i].pos, w, h));
            lemma_adjacent_cells(e[i].pos.x as int, e[i].pos.y as int, x, y, w, h);
            assert(neighborhood(
                Set::<int>::empty().insert(cell_index(e[i].pos.x as int, e[i].pos.y as int, w)),
                w,
                h,
            ).contains(p));
        }
    }

    /// The threat count of a cell is the number of enemies whose head is at
    /// Manhattan distance one from it, at most the number of enemies, and positive
    /// exactly when an enemy can reach the cell.
    pub proof fn lemma_threat_count(&self, x: int, y: int)
        requires
            self.wf(),
            self.zones_from_heads(),
            0 <= x < self.width,
            0 <= y < self.height,
        ensures
            threats(self.enemy_heads@, self.width as int, self.height as int, cell_index(x, y, self.width as int))
                == adjacent_heads(self.enemy_heads@, x, y, self.enemy_heads.len() as int),
            threats(self.enemy_heads@, self.width as int, self.height as int, cell_index(x, y, self.width as int))
                <= self.enemy_heads.len(),
            (threats(self.enemy_heads@, self.width as int, self.height as int, cell_index(x, y, self.width as int))
                > 0) == self.enemy_reachable_bb@.contains(cell_index(x, y, self.width as int)),
    {
        lemma_threats_reach(self.enemy_heads@, self.width as int, self.height as int, cell_index(x, y, self.width as int));
        lemma_threats_by_distance(self.enemy_heads@, self.width as int, self.height as int, x, y);
    }

    /// The number of enemies whose head is next to `(x, y)`.
    pub fn enemy_threat_count(&self, x: i32, y: i32) -> (n: i32)
        requires
            self.wf(),
            0 <= x,
            0 <= y,
            cell_index(x as int, y as int, self.width as int) < 128,
            self.enemy_heads.len() <= i32::MAX,
        ensures
            n == threats(self.enemy_heads@, self.width as int, self.height as int, cell_index(x as int, y as int, self.width as int)),
    {
        let w = self.width as u32;
        let target = Bitboard::from_coord(x, y, w);
        let ghost p = cell_index(x as int, y as int, self.width as int);
        let mut count = 0i32;
        let mut i: usize = 0;
        while i < self.enemy_heads.len()
            invariant
                self.wf(),
                w == self.width,
                target@ == Set::<int>::empty().insert(p),
                i <= self.enemy_heads.len(),
                self.enemy_heads.len() <= i32::MAX,
                count == threats(self.enemy_heads@.take(i as int), self.width as int, self.height as int, p),
                count <= i,
            decreases self.enemy_heads.len() - i,
        {
            let eh = &self.enemy_heads[i];
            assert(on_board(eh.pos, self.width as int, self.height as int));
            proof {
                lemma_cell_in_word(eh.pos.x as int, eh.pos.y as int, self.width as int, self.height as int);
            }
            let head_bb = Bitboard::from_coord(eh.pos.x, eh.pos.y, w);
            let reachable = head_bb.expand(&self.masks);
            proof {
                crate::bits::lemma_bit_and(reachable.0, target.0);
            }
            let both = Bitboard(reachable.0 & target.0);
            assert(both@ =~= reachable@.intersect(target@));
            let ghost t1 = self.enemy_heads@.take(i + 1);
            assert(t1.drop_last() =~= self.enemy_heads@.take(i as int));
            assert(t1.last() == *eh);
            if both.any() {
                proof {
                    lemma_nonempty_has(both@);
                }
                count += 1;
            } else {
                assert(!both@.contains(p));
            }
            i += 1;
        }
        assert(self.enemy_heads@.take(i as int) =~= self.enemy_heads@);
        count
    }

    /// What a flood fill from `(x, y)` finds: the size of the region, whether my tail
    /// is in it, the food in it, and the number of cells just outside it that can be
    /// left through (tails that move away, and open cells).
    pub fn flood_fill_enhanced(&self, x: i32, y: i32) -> (r: FloodFillResult)
        requires
            self.wf(),
        ensures
            !(0 <= x < self.width && 0 <= y < self.height) ==> r.count == 0 && !r.has_tail_exit && r.food_count == 0
                && r.exit_count == 0,
            (0 <= x < self.width && 0 <= y < self.height) ==> {
                let reg = self.region(x as int, y as int);
                let around = neighborhood(reg, self.width as int, self.height as int).difference(reg);
                &&& r.count == reg.len()
                &&& r.has_tail_exit == reg.contains(cell_index(self.my_tail.x as int, self.my_tail.y as int, self.width as int))
                &&& r.food_count == reg.intersect(self.food_bb@).len()
                &&& r.exit_count == around.intersect(self.blocked()).intersect(self.tail_freeing_bb@).len()
                    + around.difference(self.blocked()).len()
            },
    {
        if !self.is_in_bounds(x, y) {
            return FloodFillResult { count: 0, has_tail_exit: false, food_count: 0, exit_count: 0 };
        }
        proof {
            lemma_cell_in_word(x as int, y as int, self.width as int, self.height as int);
            lemma_cell_in_word(self.my_tail.x as int, self.my_tail.y as int, self.width as int, self.height as int);
        }
        let w = self.width as u32;
        let blocked = self.blocked_bb();
        let start = Bitboard::from_coord(x, y, w);
        let my_tail_bb = Bitboard::from_coord(self.my_tail.x, self.my_tail.y, w);
        let (reachable, has_tail_exit) = start.flood_fill_with_target(blocked, my_tail_bb, &self.masks);
        proof {
            self.lemma_region_on_board(x as int, y as int);
            assert(reachable@ == self.region(x as int, y as int));
            if has_tail_exit {
                lemma_nonempty_has(reachable@.intersect(my_tail_bb@));
            } else {
                if reachable@.contains(cell_index(self.my_tail.x as int, self.my_tail.y as int, self.width as int)) {
                    assert(reachable@.intersect(my_tail_bb@).contains(cell_index(self.my_tail.x as int, self.my_tail.y as int, self.width as int)));
                }
            }
        }
        let count = reachable.popcount() as i32;
        proof {
            crate::bits::lemma_bit_and(reachable.0, self.food_bb.0);
        }
        let in_region_food = Bitboard(reachable.0 & self.food_bb.0);
        assert(in_region_food@ =~= reachable@.intersect(self.food_bb@));
        let food_count = in_region_food.popcount() as i32;
        let ex = reachable.expand(&self.masks);
        proof {
            crate::bits::lemma_bit_and(ex.0, self.masks.board_mask);
        }
        let expanded = Bitboard(ex.0 & self.masks.board_mask);
        assert(expanded@ =~= ex@);
        proof {
            crate::bits::lemma_bit_not(reachable.0);
            crate::bits::lemma_bit_and(expanded.0, !reachable.0);
            crate::bits::lemma_bit_and(expanded.0 & !reachable.0, blocked.0);
        }
        let border = Bitboard(expanded.0 & !reachable.0 & blocked.0);
        proof {
            crate::bits::lemma_bit_and(border.0, self.tail_freeing_bb.0);
        }
        let border_tails = Bitboard(border.0 & self.tail_freeing_bb.0);
        let tail_exits = border_tails.popcount() as i32;
        proof {
            crate::bits::lemma_bit_not(blocked.0);
            crate::bits::lemma_bit_and(expanded.0 & !reachable.0, !blocked.0);
        }
        let open_adjacent = Bitboard(expanded.0 & !reachable.0 & !blocked.0);
        let ghost reg = reachable@;
        let ghost around = neighborhood(reg, self.width as int, self.height as int).difference(reg);
        assert(border_tails@ =~= around.intersect(self.blocked()).intersect(self.tail_freeing_bb@));
        assert(open_adjacent@ =~= around.difference(self.blocked()));
        let exit_count = tail_exits + open_adjacent.popcount() as i32;
        FloodFillResult { count, has_tail_exit, food_count, exit_count }
    }

    /// A region lies on the board.
    pub proof fn lemma_region_on_board(&self, x: int, y: int)
        requires
            self.wf(),
        ensures
            self.region(x, y).subset_of(self.masks.cells()),
            self.region(x, y).finite(),
            self.region(x, y).len() <= 128,
    {
        let w = self.width as int;
        let h = self.height as int;
        let open = board_cells(w, h).difference(self.blocked());
        let seed = Set::<int>::empty().insert(cell_index(x, y, w));
        assert forall|c: int| #[trigger] self.region(x, y).contains(c) implies self.masks.cells().contains(c) by {
            let k = choose|k: nat| #[trigger] crate::bitboard::flood_iter(seed, open, w, h, k).contains(c);
            crate::bitboard::lemma_flood_iter_open(seed, open, w, h, k);
        }
        vstd::set_lib::lemma_int_range(0, w * h);
        vstd::set_lib::lemma_set_subset_finite(self.masks.cells(), self.region(x, y));
        vstd::set_lib::lemma_len_subset(self.region(x, y), self.masks.cells());
    }

    /// The number of cells reachable from `(x, y)`, or 0 off the board.
    pub fn flood_fill_count(&self, x: i32, y: i32) -> (n: i32)
        requires
            self.wf(),
        ensures
            n == self.region_size(x as int, y as int),
    {
        if !self.is_in_bounds(x, y) {
            return 0;
        }
        proof {
            lemma_cell_in_word(x as int, y as int, self.width as int, self.height as int);
            self.lemma_region_on_board(x as int, y as int);
        }
        let w = self.width as u32;
        let blocked = self.blocked_bb();
        let start = Bitboard::from_coord(x, y, w);
        start.flood_fill(blocked, &self.masks).popcount() as i32
    }

    /// The Manhattan distance between two points.
    pub fn manhattan(&self, x1: i32, y1: i32, x2: i32, y2: i32) -> (d: i32)
        requires
            manhattan_spec(x1 as int, y1 as int, x2 as int, y2 as int) <= i32::MAX,
        ensures
            d == manhattan_spec(x1 as int, y1 as int, x2 as int, y2 as int),
    {
        let dx = x1 - x2;
        let dy = y1 - y2;
        let ax: i32 = if dx >= 0 { dx } else { -dx };
        let ay: i32 = if dy >= 0 { dy } else { -dy };
        ax + ay
    }

    /// Food from which only a region smaller than my length plus three can be reached.
    pub fn is_food_trapped(&self, food_x: i32, food_y: i32) -> (b: bool)
        requires
            self.wf(),
            self.my_length <= i32::MAX - 3,
        ensures
            b == (self.region_size(food_x as int, food_y as int) < self.my_length + 3),
    {
        self.flood_fill_count(food_x, food_y) < self.my_length + 3
    }

    /// Some enemy at least as long as me is at most as far from the food as I am.
    pub fn is_food_contested(&self, food_x: i32, food_y: i32) -> (b: bool)
        requires
            self.wf(),
        ensures
            b == exists|i: int|
                0 <= i < self.enemy_heads.len() && #[trigger] manhattan_spec(
                    self.enemy_heads@[i].pos.x as int,
                    self.enemy_heads@[i].pos.y as int,
                    food_x as int,
                    food_y as int,
                ) <= manhattan_spec(self.my_head.x as int, self.my_head.y as int, food_x as int, food_y as int)
                    && self.enemy_heads@[i].length >= self.my_length,
    {
        let my_dist = distance(self.my_head.x, self.my_head.y, food_x, food_y);
        let mut i: usize = 0;
        while i < self.enemy_heads.len()
            invariant
                self.wf(),
                my_dist == manhattan_spec(self.my_head.x as int, self.my_head.y as int, food_x as int, food_y as int),
                i <= self.enemy_heads.len(),
                forall|j: int|
                    0 <= j < i ==> !(#[trigger] manhattan_spec(
                        self.enemy_heads@[j].pos.x as int,
                        self.enemy_heads@[j].pos.y as int,
                        food_x as int,
                        food_y as int,
                    ) <= my_dist && self.enemy_heads@[j].length >= self.my_length),
            decreases self.enemy_heads.len() - i,
        {
            let eh = &self.enemy_heads[i];
            assert(on_board(eh.pos, self.width as int, self.height as int));
            let enemy_dist = distance(eh.pos.x, eh.pos.y, food_x, food_y);
            if enemy_dist <= my_dist && eh.length >= self.my_length {
                return true;
            }
            i += 1;
        }
        false
    }
}

} // verus!

verus! {

impl Board {
    /// The food information of food `j` seen from `(x, y)`: its distance and a
    /// penalty of 100 if it is trapped and 50 if it is contested.
    pub open spec fn food_info(&self, x: int, y: int, j: int) -> FoodInfo {
        let f = self.food@[j];
        let trapped = self.region_size(f.x as int, f.y as int) < self.my_length + 3;
        let contested = exists|i: int|
            0 <= i < self.enemy_heads.len() && #[trigger] manhattan_spec(
                self.enemy_heads@[i].pos.x as int,
                self.enemy_heads@[i].pos.y as int,
                f.x as int,
                f.y as int,
            ) <= manhattan_spec(self.my_head.x as int, self.my_head.y as int, f.x as int, f.y as int)
                && self.enemy_heads@[i].length >= self.my_length;
        FoodInfo {
            food: f,
            dist: manhattan_spec(x, y, f.x as int, f.y as int) as i32,
            penalty: ((if trapped { 100int } else { 0 }) + (if contested { 50int } else { 0 })) as i32,
        }
    }

    /// The penalty of a food is 0, 50, 100 or 150; it is at least 100 exactly when the
    /// region reachable from the food is smaller than my length plus three, and it
    /// is at most 50 otherwise; it ends in 50 exactly when an enemy at least my length
    /// is no farther from the food than I am. The distance is the Manhattan distance.
    pub proof fn lemma_food_penalty(&self, x: int, y: int, j: int)
        requires
            manhattan_spec(x, y, self.food@[j].x as int, self.food@[j].y as int) <= i32::MAX,
            manhattan_spec(x, y, self.food@[j].x as int, self.food@[j].y as int) >= 0,
        ensures
            self.food_info(x, y, j).food == self.food@[j],
            self.food_info(x, y, j).dist == manhattan_spec(x, y, self.food@[j].x as int, self.food@[j].y as int),
            0 <= self.food_info(x, y, j).penalty <= 150,
            (self.region_size(self.food@[j].x as int, self.food@[j].y as int) < self.my_length + 3) == (self.food_info(
                x,
                y,
                j,
            ).penalty >= 100),
            self.region_size(self.food@[j].x as int, self.food@[j].y as int) >= self.my_length + 3 ==> self.food_info(
                x,
                y,
                j,
            ).penalty <= 50,
            (self.food_info(x, y, j).penalty % 100 == 50) == (exists|e: int|
                0 <= e < self.enemy_heads.len() && self.enemy_heads@[e].length >= self.my_length && #[trigger] manhattan_spec(
                    self.enemy_heads@[e].pos.x as int,
                    self.enemy_heads@[e].pos.y as int,
                    self.food@[j].x as int,
                    self.food@[j].y as int,
                ) <= manhattan_spec(
                    self.my_head.x as int,
                    self.my_head.y as int,
                    self.food@[j].x as int,
                    self.food@[j].y as int,
                )),
    {
    }

    /// The food information of food `j` seen from `(x, y)`, distance only.
    pub open spec fn plain_food_info(&self, x: int, y: int, j: int) -> FoodInfo {
        let f = self.food@[j];
        FoodInfo { food: f, dist: manhattan_spec(x, y, f.x as int, f.y as int) as i32, penalty: 0 }
    }

    /// The food that minimises distance plus penalty from `(from_x, from_y)`; the
    /// first such food when several tie, and none when there is no food.
    pub fn nearest_safe_food(&self, from_x: i32, from_y: i32) -> (r: Option<FoodInfo>)
        requires
            self.wf(),
            self.my_length <= i32::MAX - 3,
            forall|j: int|
                0 <= j < self.food.len() ==> manhattan_spec(
                    from_x as int,
                    from_y as int,
                    #[trigger] self.food@[j].x as int,
                    self.food@[j].y as int,
                ) + self.food_info(from_x as int, from_y as int, j).penalty <= i32::MAX,
        ensures
            self.food.len() == 0 ==> r is None,
            self.food.len() > 0 ==> exists|j: int|
                0 <= j < self.food.len() && r == Some(self.food_info(from_x as int, from_y as int, j)) && (forall|k: int|
                    0 <= k < j ==> #[trigger] self.food_info(from_x as int, from_y as int, k).dist + self.food_info(from_x as int, from_y as int, k).penalty
                        > self.food_info(from_x as int, from_y as int, j).dist + self.food_info(from_x as int, from_y as int, j).penalty) && (forall|k: int|
                    0 <= k < self.food.len() ==> #[trigger] self.food_info(from_x as int, from_y as int, k).dist + self.food_info(from_x as int, from_y as int, k).penalty
                        >= self.food_info(from_x as int, from_y as int, j).dist + self.food_info(from_x as int, from_y as int, j).penalty),
            r matches Some(fi) ==> {
                &&& fi.dist == manhattan_spec(from_x as int, from_y as int, fi.food.x as int, fi.food.y as int)
                &&& (self.region_size(fi.food.x as int, fi.food.y as int) < self.my_length + 3) == (fi.penalty >= 100)
                &&& 0 <= fi.penalty <= 150
                &&& (fi.penalty % 100 == 50) == (exists|e: int|
                    0 <= e < self.enemy_heads.len() && self.enemy_heads@[e].length >= self.my_length
                        && #[trigger] manhattan_spec(
                        self.enemy_heads@[e].pos.x as int,
                        self.enemy_heads@[e].pos.y as int,
                        fi.food.x as int,
                        fi.food.y as int,
                    ) <= manhattan_spec(self.my_head.x as int, self.my_head.y as int, fi.food.x as int, fi.food.y as int))
                &&& forall|k: int|
                    0 <= k < self.food.len() && self.region_size(
                        #[trigger] self.food@[k].x as int,
                        self.food@[k].y as int,
                    ) >= self.my_length + 3 ==> manhattan_spec(
                        from_x as int,
                        from_y as int,
                        self.food@[k].x as int,
                        self.food@[k].y as int,
                    ) + 50 >= fi.dist + fi.penalty
            },
    {
        if self.food.len() == 0 {
            return None;
        }
        let ghost fx = from_x as int;
        let ghost fy = from_y as int;
        let mut best: Option<FoodInfo> = None;
        let mut best_key: i32 = 0;
        let ghost mut best_j: int = 0;
        let mut j: usize = 0;
        while j < self.food.len()
            invariant
                self.wf(),
                self.my_length <= i32::MAX - 3,
                forall|j: int|
                    0 <= j < self.food.len() ==> manhattan_spec(
                        from_x as int,
                        from_y as int,
                        #[trigger] self.food@[j].x as int,
                        self.food@[j].y as int,
                    ) + self.food_info(from_x as int, from_y as int, j).penalty <= i32::MAX,
                fx == from_x,
                fy == from_y,
                j <= self.food.len(),
                j == 0 <==> best is None,
                j > 0 ==> 0 <= best_j < j && best == Some(self.food_info(fx, fy, best_j)) && best_key
                    == self.food_info(fx, fy, best_j).dist + self.food_info(fx, fy, best_j).penalty,
                j > 0 ==> forall|k: int|
                    0 <= k < best_j ==> #[trigger] self.food_info(fx, fy, k).dist + self.food_info(fx, fy, k).penalty
                        > best_key,
                j > 0 ==> forall|k: int|
                    0 <= k < j ==> #[trigger] self.food_info(fx, fy, k).dist + self.food_info(fx, fy, k).penalty
                        >= best_key,
            decreases self.food.len() - j,
        {
            let f = self.food[j];
            assert(on_board(f, self.width as int, self.height as int));
            let dist = self.manhattan(from_x, from_y, f.x, f.y);
            let mut penalty = 0i32;
            if self.is_food_trapped(f.x, f.y) {
                penalty += 100;
            }
            if self.is_food_contested(f.x, f.y) {
                penalty += 50;
            }
            let info = FoodInfo { food: f, dist, penalty };
            assert(info == self.food_info(fx, fy, j as int));
            let key = dist + penalty;
            if best.is_none() || key < best_key {
                best = Some(info);
                best_key = key;
                proof {
                    best_j = j as int;
                }
            }
            j += 1;
        }
        proof {
            self.lemma_food_penalty(fx, fy, best_j);
            assert forall|k: int|
                0 <= k < self.food.len() && self.region_size(
                    #[trigger] self.food@[k].x as int,
                    self.food@[k].y as int,
                ) >= self.my_length + 3 implies manhattan_spec(
                fx,
                fy,
                self.food@[k].x as int,
                self.food@[k].y as int,
            ) + 50 >= best_key by {
                self.lemma_food_penalty(fx, fy, k);
                assert(self.food_info(fx, fy, k).dist + self.food_info(fx, fy, k).penalty >= best_key);
            }
        }
        best
    }

    /// The nearest food from `(from_x, from_y)`; the first one when several tie, and
    /// none when there is no food.
    pub fn nearest_food(&self, from_x: i32, from_y: i32) -> (r: Option<FoodInfo>)
        requires
            self.wf(),
            forall|j: int|
                0 <= j < self.food.len() ==> manhattan_spec(
                    from_x as int,
                    from_y as int,
                    #[trigger] self.food@[j].x as int,
                    self.food@[j].y as int,
                ) <= i32::MAX,
        ensures
            self.food.len() == 0 ==> r is None,
            self.food.len() > 0 ==> exists|j: int|
                0 <= j < self.food.len() && r == Some(self.plain_food_info(from_x as int, from_y as int, j)) && (forall|k: int|
                    0 <= k < j ==> #[trigger] self.plain_food_info(from_x as int, from_y as int, k).dist
                        > self.plain_food_info(from_x as int, from_y as int, j).dist) && (forall|k: int|
                    0 <= k < self.food.len() ==> #[trigger] self.plain_food_info(from_x as int, from_y as int, k).dist
                        >= self.plain_food_info(from_x as int, from_y as int, j).dist),
    {
        let ghost fx = from_x as int;
        let ghost fy = from_y as int;
        let mut best: Option<FoodInfo> = None;
        let mut best_key: i32 = 0;
        let ghost mut best_j: int = 0;
        let mut j: usize = 0;
        while j < self.food.len()
            invariant
                self.wf(),
                forall|j: int|
                    0 <= j < self.food.len() ==> manhattan_spec(
                        from_x as int,
                        from_y as int,
                        #[trigger] self.food@[j].x as int,
                        self.food@[j].y as int,
                    ) <= i32::MAX,
                fx == from_x,
                fy == from_y,
                j <= self.food.len(),
                j == 0 <==> best is None,
                j > 0 ==> 0 <= best_j < j && best == Some(self.plain_food_info(fx, fy, best_j)) && best_key
                    == self.plain_food_info(fx, fy, best_j).dist,
                j > 0 ==> forall|k: int| 0 <= k < best_j ==> #[trigger] self.plain_food_info(fx, fy, k).dist > best_key,
                j > 0 ==> forall|k: int| 0 <= k < j ==> #[trigger] self.plain_food_info(fx, fy, k).dist >= best_key,
            decreases self.food.len() - j,
        {
            let f = self.food[j];
            assert(on_board(f, self.width as int, self.height as int));
            let dist = self.manhattan(from_x, from_y, f.x, f.y);
            let info = FoodInfo { food: f, dist, penalty: 0 };
            assert(info == self.plain_food_info(fx, fy, j as int));
            if best.is_none() || dist < best_key {
                best = Some(info);
                best_key = dist;
                proof {
                    best_j = j as int;
                }
            }
            j += 1;
        }
        best
    }

    /// An enemy at least as long as me has its head at distance at most one.
    pub fn is_near_dangerous_head(&self, x: i32, y: i32) -> (b: bool)
        requires
            self.wf(),
        ensures
            b == exists|i: int|
                0 <= i < self.enemy_heads.len() && #[trigger] manhattan_spec(
                    x as int,
                    y as int,
                    self.enemy_heads@[i].pos.x as int,
                    self.enemy_heads@[i].pos.y as int,
                ) <= 1 && self.enemy_heads@[i].length >= self.my_length,
    {
        let my_len = self.my_length;
        let mut i: usize = 0;
        while i < self.enemy_heads.len()
            invariant
                self.wf(),
                my_len == self.my_length,
                i <= self.enemy_heads.len(),
                forall|j: int|
                    0 <= j < i ==> !(#[trigger] manhattan_spec(
                        x as int,
                        y as int,
                        self.enemy_heads@[j].pos.x as int,
                        self.enemy_heads@[j].pos.y as int,
                    ) <= 1 && self.enemy_heads@[j].length >= my_len),
            decreases self.enemy_heads.len() - i,
        {
            let eh = &self.enemy_heads[i];
            assert(on_board(eh.pos, self.width as int, self.height as int));
            let dist = distance(x, y, eh.pos.x, eh.pos.y);
            if dist <= 1 && eh.length >= my_len {
                return true;
            }
            i += 1;
        }
        false
    }

    /// Enemy `e` is one I may meet head to head at `(x, y)`: no other enemy at least
    /// as long as me is next to that cell.
    pub open spec fn safe_to_engage(&self, x: int, y: int, e: EnemyHead) -> bool {
        forall|o: int|
            0 <= o < self.enemy_heads.len() ==> (self.enemy_heads@[o].id@ == e.id@ || self.enemy_heads@[o].length
                < self.my_length || #[trigger] manhattan_spec(
                x,
                y,
                self.enemy_heads@[o].pos.x as int,
                self.enemy_heads@[o].pos.y as int,
            ) > 1)
    }

    /// Some shorter enemy has its head at distance at most one from `(x, y)`, and no
    /// other enemy at least as long as me is that close.
    pub fn can_kill_head_to_head(&self, x: i32, y: i32) -> (b: bool)
        requires
            self.wf(),
        ensures
            b == exists|i: int|
                0 <= i < self.enemy_heads.len() && #[trigger] manhattan_spec(
                    x as int,
                    y as int,
                    self.enemy_heads@[i].pos.x as int,
                    self.enemy_heads@[i].pos.y as int,
                ) <= 1 && self.enemy_heads@[i].length < self.my_length && self.safe_to_engage(
                    x as int,
                    y as int,
                    self.enemy_heads@[i],
                ),
    {
        let my_len = self.my_length;
        let mut i: usize = 0;
        while i < self.enemy_heads.len()
            invariant
                self.wf(),
                my_len == self.my_length,
                i <= self.enemy_heads.len(),
                forall|j: int|
                    0 <= j < i ==> !(#[trigger] manhattan_spec(
                        x as int,
                        y as int,
                        self.enemy_heads@[j].pos.x as int,
                        self.enemy_heads@[j].pos.y as int,
                    ) <= 1 && self.enemy_heads@[j].length < my_len && self.safe_to_engage(
                        x as int,
                        y as int,
                        self.enemy_heads@[j],
                    )),
            decreases self.enemy_heads.len() - i,
        {
            let eh = &self.enemy_heads[i];
            assert(on_board(eh.pos, self.width as int, self.height as int));
            let dist = distance(x, y, eh.pos.x, eh.pos.y);
            if dist <= 1 && eh.length < my_len {
                let mut safe_to_engage = true;
                let mut o: usize = 0;
                while o < self.enemy_heads.len()
                    invariant
                        self.wf(),
                        my_len == self.my_length,
                        i < self.enemy_heads.len(),
                        *eh == self.enemy_heads@[i as int],
                        o <= self.enemy_heads.len(),
                        safe_to_engage == forall|q: int|
                            0 <= q < o ==> (self.enemy_heads@[q].id@ == eh.id@ || self.enemy_heads@[q].length
                                < my_len || #[trigger] manhattan_spec(
                                x as int,
                                y as int,
                                self.enemy_heads@[q].pos.x as int,
                                self.enemy_heads@[q].pos.y as int,
                            ) > 1),
                    decreases self.enemy_heads.len() - o,
                {
                    let other = &self.enemy_heads[o];
                    assert(on_board(other.pos, self.width as int, self.height as int));
                    let ok = *(&other.id) == *(&eh.id) || other.length < my_len || distance(
                        x,
                        y,
                        other.pos.x,
                        other.pos.y,
                    ) > 1;
                    if !ok {
                        safe_to_engage = false;
                    }
                    o += 1;
                }
                if safe_to_engage {
                    return true;
                }
            }
            i += 1;
        }
        false
    }
}

} // verus!

verus! {

/// The number of indices below `n` for which `p` holds.
pub open spec fn count_where(n: int, p: spec_fn(int) -> bool) -> nat
    decreases n,
{
    if n <= 0 {
        0
    } else {
        count_where(n - 1, p) + (if p(n - 1) {
            1nat
        } else {
            0nat
        })
    }
}

impl Board {
    /// The safe neighbours of `(x, y)` among the first `d` directions, in order.
    pub open spec fn safe_neighbors_upto(&self, x: int, y: int, d: int) -> Seq<Coord>
        decreases d,
    {
        if d <= 0 {
            Seq::empty()
        } else {
            let dir = dir_of_index(d - 1);
            let nx = x + dir_dx(dir);
            let ny = y + dir_dy(dir);
            let prev = self.safe_neighbors_upto(x, y, d - 1);
            if 0 <= nx < self.width && 0 <= ny < self.height && !self.blocked().contains(
                cell_index(nx, ny, self.width as int),
            ) {
                prev.push(Coord { x: nx as i32, y: ny as i32 })
            } else {
                prev
            }
        }
    }

    /// The safe cells next to `(x, y)`, in the order up, down, left, right.
    pub fn get_safe_neighbors(&self, x: i32, y: i32) -> (r: Vec<Coord>)
        requires
            self.wf(),
            steppable(x as int),
            steppable(y as int),
        ensures
            r@ == self.safe_neighbors_upto(x as int, y as int, 4),
    {
        let mut r: Vec<Coord> = Vec::new();
        let mut d: usize = 0;
        while d < 4
            invariant
                self.wf(),
                steppable(x as int),
                steppable(y as int),
                d <= 4,
                r@ == self.safe_neighbors_upto(x as int, y as int, d as int),
            decreases 4 - d,
        {
            let dir = Direction::from_index(d);
            let nx = x + dir.dx();
            let ny = y + dir.dy();
            if self.is_safe(nx, ny) {
                r.push(Coord::new(nx, ny));
            }
            d += 1;
        }
        r
    }

    /// For each enemy: its id, whether its region is smaller than it, and the size of
    /// the region reachable from its head.
    pub fn enemy_trap_status(&self) -> (r: Vec<(String, bool, i32)>)
        requires
            self.wf(),
        ensures
            r.len() == self.enemy_heads.len(),
            forall|i: int|
                0 <= i < r.len() ==> {
                    let e = self.enemy_heads@[i];
                    let area = self.region(e.pos.x as int, e.pos.y as int).len() as int;
                    &&& (#[trigger] r@[i]).0@ == e.id@
                    &&& r@[i].2 == area
                    &&& r@[i].1 == (area < e.length)
                },
    {
        let w = self.width as u32;
        let blocked = self.blocked_bb();
        let mut r: Vec<(String, bool, i32)> = Vec::new();
        let mut i: usize = 0;
        while i < self.enemy_heads.len()
            invariant
                self.wf(),
                w == self.width,
                blocked@ == self.blocked(),
                i <= self.enemy_heads.len(),
                r.len() == i,
                forall|j: int|
                    0 <= j < i ==> {
                        let e = self.enemy_heads@[j];
                        let area = self.region(e.pos.x as int, e.pos.y as int).len() as int;
                        &&& (#[trigger] r@[j]).0@ == e.id@
                        &&& r@[j].2 == area
                        &&& r@[j].1 == (area < e.length)
                    },
            decreases self.enemy_heads.len() - i,
        {
            let eh = &self.enemy_heads[i];
            assert(on_board(eh.pos, self.width as int, self.height as int));
            proof {
                lemma_cell_in_word(eh.pos.x as int, eh.pos.y as int, self.width as int, self.height as int);
                self.lemma_region_on_board(eh.pos.x as int, eh.pos.y as int);
            }
            let start = Bitboard::from_coord(eh.pos.x, eh.pos.y, w);
            let reachable = start.flood_fill(blocked, &self.masks);
            let area = reachable.popcount() as i32;
            r.push((eh.id.clone(), area < eh.length, area));
            i += 1;
        }
        r
    }

    /// The exits of the region of `(x, y)`: the count `flood_fill_enhanced` reports.
    pub fn region_exit_count(&self, x: i32, y: i32) -> (n: i32)
        requires
            self.wf(),
        ensures
            !(0 <= x < self.width && 0 <= y < self.height) ==> n == 0,
            (0 <= x < self.width && 0 <= y < self.height) ==> {
                let reg = self.region(x as int, y as int);
                let around = neighborhood(reg, self.width as int, self.height as int).difference(reg);
                n == around.intersect(self.blocked()).intersect(self.tail_freeing_bb@).len() + around.difference(
                    self.blocked(),
                ).len()
            },
    {
        let ff = self.flood_fill_enhanced(x, y);
        ff.exit_count
    }

    /// A region has no exits: every open neighbour of the region belongs to it, and
    /// a blocked cell is never a tail that moves away. So `region_exit_count` (and
    /// the `exit_count` of `flood_fill_enhanced`) is 0 on every board.
    pub proof fn lemma_region_has_no_exit(&self, x: int, y: int)
        ensures
            ({
                let reg = self.region(x, y);
                let around = neighborhood(reg, self.width as int, self.height as int).difference(reg);
                around.intersect(self.blocked()).intersect(self.tail_freeing_bb@).len() + around.difference(
                    self.blocked(),
                ).len() == 0
            }),
    {
        let w = self.width as int;
        let h = self.height as int;
        let open = board_cells(w, h).difference(self.blocked());
        let seed = Set::<int>::empty().insert(cell_index(x, y, w));
        let reg = self.region(x, y);
        let around = neighborhood(reg, w, h).difference(reg);
        lemma_reachable_open_neighbors(seed, open, w, h);
        assert(around.difference(self.blocked()) =~= Set::<int>::empty()) by {
            assert forall|p: int| !#[trigger] around.difference(self.blocked()).contains(p) by {
                if around.difference(self.blocked()).contains(p) {
                    assert(neighborhood(reg, w, h).intersect(open).contains(p));
                }
            }
        }
        assert(around.intersect(self.blocked()).intersect(self.tail_freeing_bb@) =~= Set::<int>::empty());
    }

    /// The enemy head `(ex, ey)` mirrors mine: in a neighbouring row at nearly the
    /// same distance from the centre column, or in a neighbouring column at nearly
    /// the same distance from the centre row. Distances are compared at double scale
    /// so that half cells stay whole.
    pub fn is_enemy_mirroring(&self, ex: i32, ey: i32) -> (b: bool)
        requires
            self.wf(),
            -0x40_0000 <= ex <= 0x40_0000,
            -0x40_0000 <= ey <= 0x40_0000,
        ensures
            b == ((abs_int(self.my_head.y - ey) <= 1 && abs_int(
                abs_int(2 * self.my_head.x - (self.width - 1)) - abs_int(2 * ex - (self.width - 1)),
            ) < 4) || (abs_int(self.my_head.x - ex) <= 1 && abs_int(
                abs_int(2 * self.my_head.y - (self.height - 1)) - abs_int(2 * ey - (self.height - 1)),
            ) < 4)),
    {
        let cx2 = self.width - 1;
        let cy2 = self.height - 1;
        let my_dx2 = abs_i32(2 * self.my_head.x - cx2);
        let my_dy2 = abs_i32(2 * self.my_head.y - cy2);
        let e_dx2 = abs_i32(2 * ex - cx2);
        let e_dy2 = abs_i32(2 * ey - cy2);
        let row_mirror = abs_i32(self.my_head.y - ey) <= 1 && abs_i32(my_dx2 - e_dx2) < 4;
        let col_mirror = abs_i32(self.my_head.x - ex) <= 1 && abs_i32(my_dy2 - e_dy2) < 4;
        row_mirror || col_mirror
    }
}

/// The absolute value.
pub open spec fn abs_int(v: int) -> int {
    if v >= 0 {
        v
    } else {
        -v
    }
}

fn abs_i32(v: i32) -> (r: i32)
    requires
        v > i32::MIN,
    ensures
        r == abs_int(v as int),
{
    if v >= 0 {
        v
    } else {
        -v
    }
}

} // verus!

verus! {

/// Under a head start of `hs` moves for the enemies, a cell at distance `md` from me
/// and `ed` from the nearest enemy is mine.
pub open spec fn projected_mine(md: int, ed: int, hs: int) -> bool {
    md < (if ed == i32::MAX {
        i32::MAX as int
    } else if ed - hs > 0 {
        ed - hs
    } else {
        0
    })
}

impl Board {
    /// The cells that can be entered.
    pub open spec fn open_cells(&self) -> Set<int> {
        board_cells(self.width as int, self.height as int).difference(self.blocked())
    }

    /// The enemy heads on the board that are not blocked.
    pub open spec fn enemy_seeds(&self) -> Set<int> {
        Set::new(
            |p: int|
                exists|i: int|
                    0 <= i < self.all_snakes.len() && self.all_snakes@[i].id@ != self.my_id@ && on_board(
                        self.all_snakes@[i].head,
                        self.width as int,
                        self.height as int,
                    ) && !self.blocked().contains(
                        cell_index(self.all_snakes@[i].head.x as int, self.all_snakes@[i].head.y as int, self.width as int),
                    ) && #[trigger] cell_index(
                        self.all_snakes@[i].head.x as int,
                        self.all_snakes@[i].head.y as int,
                        self.width as int,
                    ) == p,
        )
    }

    /// The cell `(x, y)` when it is on the board and not blocked.
    pub open spec fn start_seed(&self, x: int, y: int) -> Set<int> {
        if 0 <= x < self.width && 0 <= y < self.height && !self.blocked().contains(cell_index(x, y, self.width as int)) {
            Set::<int>::empty().insert(cell_index(x, y, self.width as int))
        } else {
            Set::<int>::empty()
        }
    }

    /// My distance to cell `c` from `(x, y)`.
    pub open spec fn my_dist(&self, x: int, y: int, c: int) -> int {
        crate::bitboard::bfs_dist(self.start_seed(x, y), self.open_cells(), self.width as int, self.height as int, c)
    }

    /// The distance of cell `c` from the nearest enemy head.
    pub open spec fn enemy_dist(&self, c: int) -> int {
        crate::bitboard::bfs_dist(self.enemy_seeds(), self.open_cells(), self.width as int, self.height as int, c)
    }

    /// Territory if I stand at `(from_x, from_y)` and the enemies get a head start
    /// of `enemy_headstart` moves: the cells I reach strictly first, and the cells
    /// anyone reaches.
    pub fn voronoi_area_projected(&self, from_x: i32, from_y: i32, enemy_headstart: i32) -> (r: (i32, i32))
        requires
            self.wf(),
            enemy_headstart >= i32::MIN + 256,
        ensures
            r.0 == count_where(
                self.width * self.height,
                |c: int| projected_mine(self.my_dist(from_x as int, from_y as int, c), self.enemy_dist(c), enemy_headstart as int),
            ),
            r.1 == count_where(
                self.width * self.height,
                |c: int| self.my_dist(from_x as int, from_y as int, c) != i32::MAX || self.enemy_dist(c) != i32::MAX,
            ),
            self.enemy_heads_blocked() ==> r.0 == r.1 && r.1 == self.region_size(from_x as int, from_y as int),
    {
        let size = (self.width * self.height) as usize;
        let w = self.width as u32;
        let blocked = self.blocked_bb();
        proof {
            crate::bits::lemma_bit_not(blocked.0);
            crate::bits::lemma_bit_and(self.masks.board_mask, !blocked.0);
        }
        let open = Bitboard(self.masks.board_mask & !blocked.0);
        assert(open@ =~= self.open_cells());
        let mut seeds = Bitboard::empty();
        let mut i: usize = 0;
        while i < self.all_snakes.len()
            invariant
                self.wf(),
                w == self.width,
                blocked@ == self.blocked(),
                i <= self.all_snakes.len(),
                forall|p: int| #[trigger] seeds@.contains(p) == exists|j: int|
                    0 <= j < i && self.all_snakes@[j].id@ != self.my_id@ && on_board(
                        self.all_snakes@[j].head,
                        self.width as int,
                        self.height as int,
                    ) && !self.blocked().contains(
                        cell_index(self.all_snakes@[j].head.x as int, self.all_snakes@[j].head.y as int, self.width as int),
                    ) && #[trigger] cell_index(
                        self.all_snakes@[j].head.x as int,
                        self.all_snakes@[j].head.y as int,
                        self.width as int,
                    ) == p,
            decreases self.all_snakes.len() - i,
        {
            let snake = &self.all_snakes[i];
            let same = *(&snake.id) == *(&self.my_id);
            if !same {
                if self.is_in_bounds(snake.head.x, snake.head.y) {
                    proof {
                        lemma_cell_in_word(snake.head.x as int, snake.head.y as int, self.width as int, self.height as int);
                    }
                    if !blocked.test_coord(snake.head.x, snake.head.y, w) {
                        seeds = seeds.set_coord(snake.head.x, snake.head.y, w);
                    }
                }
            }
            i += 1;
        }
        assert(seeds@ =~= self.enemy_seeds());
        let enemy_dist = crate::bitboard::layer_distances(seeds, open, &self.masks);
        let mut mine = Bitboard::empty();
        if self.is_in_bounds(from_x, from_y) {
            proof {
                lemma_cell_in_word(from_x as int, from_y as int, self.width as int, self.height as int);
            }
            if !blocked.test_coord(from_x, from_y, w) {
                mine = Bitboard::from_coord(from_x, from_y, w);
            }
        }
        assert(mine@ =~= self.start_seed(from_x as int, from_y as int));
        let my_dist = crate::bitboard::layer_distances(mine, open, &self.masks);
        let mut my_area = 0i32;
        let mut total = 0i32;
        let mut c: usize = 0;
        while c < size
            invariant
                self.wf(),
                size == self.width * self.height,
                size <= 128,
                enemy_headstart >= i32::MIN + 256,
                c <= size,
                enemy_dist.len() == size,
                my_dist.len() == size,
                forall|j: int| 0 <= j < size ==> #[trigger] enemy_dist@[j] == self.enemy_dist(j),
                forall|j: int| 0 <= j < size ==> #[trigger] my_dist@[j] == self.my_dist(from_x as int, from_y as int, j),
                forall|j: int| 0 <= j < size ==> #[trigger] enemy_dist@[j] == i32::MAX || 0 <= enemy_dist@[j] <= 128,
                my_area == count_where(
                    c as int,
                    |j: int| projected_mine(self.my_dist(from_x as int, from_y as int, j), self.enemy_dist(j), enemy_headstart as int),
                ),
                total == count_where(
                    c as int,
                    |j: int| self.my_dist(from_x as int, from_y as int, j) != i32::MAX || self.enemy_dist(j) != i32::MAX,
                ),
                my_area <= c,
                total <= c,
            decreases size - c,
        {
            let md = my_dist[c];
            let ed = enemy_dist[c];
            if md == i32::MAX && ed == i32::MAX {
                c += 1;
                continue;
            }
            total += 1;
            let effective_enemy = if ed == i32::MAX {
                i32::MAX
            } else {
                let d = ed - enemy_headstart;
                if d > 0 { d } else { 0 }
            };
            if md < effective_enemy {
                my_area += 1;
            }
            c += 1;
        }
        proof {
            if self.enemy_heads_blocked() {
                assert forall|c: int|
                    0 <= c < self.width * self.height && #[trigger] reachable(
                        self.start_seed(from_x as int, from_y as int),
                        self.open_cells(),
                        self.width as int,
                        self.height as int,
                    ).contains(c) implies self.my_dist(from_x as int, from_y as int, c) <= 128 by {
                    assert(my_dist@[c] == self.my_dist(from_x as int, from_y as int, c));
                }
                self.lemma_projected_without_enemies(from_x as int, from_y as int, enemy_headstart as int);
            }
        }
        (my_area, total)
    }

    /// Every enemy head is a blocked cell, so no enemy search starts.
    pub open spec fn enemy_heads_blocked(&self) -> bool {
        forall|i: int|
            0 <= i < self.all_snakes.len() && self.all_snakes@[i].id@ != self.my_id@ ==> self.blocked().contains(
                cell_index(#[trigger] self.all_snakes@[i].head.x as int, self.all_snakes@[i].head.y as int, self.width as int),
            )
    }

    /// On the board of a game state where each snake's body starts at its head and
    /// no head stands on a tail that moves away, every enemy head is blocked (so
    /// `voronoi_area_projected` gives the flood-fill region twice).
    pub proof fn lemma_heads_blocked(&self, gs: ApiGameState)
        requires
            gs.board_ready(),
            self.width == gs.board.width,
            self.my_id@ == gs.you.id@,
            self.all_snakes@ == gs.board.snakes@.map_values(|s: ApiBattlesnake| info_of(s)),
            self.all_bodies@ == body_cells(gs),
            self.tail_freeing_bb@ == freeing_tails(gs),
            forall|i: int|
                0 <= i < gs.board.snakes.len() ==> #[trigger] gs.board.snakes[i].body.len() >= 1
                    && gs.board.snakes[i].body[0].x == gs.board.snakes[i].head.x && gs.board.snakes[i].body[0].y
                    == gs.board.snakes[i].head.y,
            forall|i: int|
                0 <= i < gs.board.snakes.len() ==> !freeing_tails(gs).contains(
                    api_cell(#[trigger] gs.board.snakes[i].head, gs.board.width as int),
                ),
        ensures
            self.enemy_heads_blocked(),
    {
        let w = gs.board.width as int;
        assert forall|i: int|
            0 <= i < self.all_snakes.len() && self.all_snakes@[i].id@ != self.my_id@ implies self.blocked().contains(
                cell_index(#[trigger] self.all_snakes@[i].head.x as int, self.all_snakes@[i].head.y as int, self.width as int),
            ) by {
            let s = gs.board.snakes[i];
            assert(self.all_snakes@[i] == info_of(s));
            assert(s.body.len() >= 1);
            assert(api_cell(gs.board.snakes[i].body[0], w) == api_cell(s.head, w));
            assert(s.head.on_board(w, gs.board.height as int));
            lemma_cell_in_word(s.head.x as int, s.head.y as int, w, gs.board.height as int);
            assert(body_cells(gs).contains(api_cell(s.head, w)));
            assert(!freeing_tails(gs).contains(api_cell(gs.board.snakes[i].head, w)));
        }
    }

    /// Without enemy searches, the projected territory is every cell I reach, and
    /// that is my flood-fill region.
    proof fn lemma_projected_without_enemies(&self, x: int, y: int, hs: int)
        requires
            self.wf(),
            self.enemy_heads_blocked(),
            forall|c: int|
                0 <= c < self.width * self.height && #[trigger] reachable(
                    self.start_seed(x, y),
                    self.open_cells(),
                    self.width as int,
                    self.height as int,
                ).contains(c) ==> self.my_dist(x, y, c) <= 128,
        ensures
            count_where(
                self.width * self.height,
                |c: int| projected_mine(self.my_dist(x, y, c), self.enemy_dist(c), hs),
            ) == count_where(
                self.width * self.height,
                |c: int| self.my_dist(x, y, c) != i32::MAX || self.enemy_dist(c) != i32::MAX,
            ),
            count_where(
                self.width * self.height,
                |c: int| self.my_dist(x, y, c) != i32::MAX || self.enemy_dist(c) != i32::MAX,
            ) == self.region_size(x, y),
    {
        let w = self.width as int;
        let h = self.height as int;
        let n = w * h;
        let open = self.open_cells();
        assert(self.enemy_seeds() =~= Set::<int>::empty());
        assert forall|c: int| #![trigger self.enemy_dist(c)] self.enemy_dist(c) == i32::MAX by {
            if reachable(Set::<int>::empty(), open, w, h).contains(c) {
                let k = choose|k: nat| #[trigger] flood_iter(Set::<int>::empty(), open, w, h, k).contains(c);
                crate::territory::lemma_flood_iter_empty(open, w, h, k);
            }
        }
        let mine = reachable(self.start_seed(x, y), open, w, h);
        assert forall|c: int| 0 <= c < n implies #[trigger] mine.contains(c) == (self.my_dist(x, y, c) != i32::MAX) by {
            if mine.contains(c) {
                assert(self.my_dist(x, y, c) <= 128);
            }
        }
        lemma_count_where_agree(
            n,
            |c: int| projected_mine(self.my_dist(x, y, c), self.enemy_dist(c), hs),
            |c: int| mine.contains(c),
        );
        lemma_count_where_agree(
            n,
            |c: int| self.my_dist(x, y, c) != i32::MAX || self.enemy_dist(c) != i32::MAX,
            |c: int| mine.contains(c),
        );
        lemma_flood_iter_open(self.start_seed(x, y), open, w, h, 0);
        assert(mine.subset_of(open)) by {
            assert forall|c: int| mine.contains(c) implies open.contains(c) by {
                let k = choose|k: nat| #[trigger] flood_iter(self.start_seed(x, y), open, w, h, k).contains(c);
                lemma_flood_iter_open(self.start_seed(x, y), open, w, h, k);
            }
        }
        lemma_count_where_set(n, mine);
        if 0 <= x < w && 0 <= y < h {
            let cell = Set::<int>::empty().insert(cell_index(x, y, w));
            assert(cell.intersect(open) =~= self.start_seed(x, y).intersect(open));
            lemma_flood_iter_same_seed(cell, self.start_seed(x, y), open, w, h);
            assert(self.region(x, y) =~= mine) by {
                assert forall|c: int| #[trigger] self.region(x, y).contains(c) == mine.contains(c) by {
                    if self.region(x, y).contains(c) {
                        let k = choose|k: nat| #[trigger] flood_iter(cell, open, w, h, k).contains(c);
                        assert(flood_iter(self.start_seed(x, y), open, w, h, k).contains(c));
                    }
                    if mine.contains(c) {
                        let k = choose|k: nat| #[trigger] flood_iter(self.start_seed(x, y), open, w, h, k).contains(c);
                        assert(flood_iter(cell, open, w, h, k).contains(c));
                    }
                }
            }
        } else {
            assert(mine =~= Set::<int>::empty()) by {
                assert forall|c: int| !#[trigger] mine.contains(c) by {
                    if mine.contains(c) {
                        let k = choose|k: nat| #[trigger] flood_iter(Set::<int>::empty(), open, w, h, k).contains(c);
                        crate::territory::lemma_flood_iter_empty(open, w, h, k);
                    }
                }
            }
        }
    }
}

} // verus!

verus! {

/// The depth limit of the corridor search.
pub const CORRIDOR_DEPTH_LIMIT: i32 = 20;

/// `v + 1` in 32-bit two's-complement arithmetic: `i32::MAX + 1` wraps to
/// `i32::MIN`.
pub open spec fn wrapping_succ(v: int) -> int {
    if v == i32::MAX {
        i32::MIN as int
    } else {
        v + 1
    }
}

impl Board {
    /// `(x, y)` is on the board and not blocked.
    pub open spec fn safe_at(&self, x: int, y: int) -> bool {
        0 <= x < self.width && 0 <= y < self.height && !self.blocked().contains(cell_index(x, y, self.width as int))
    }

    /// The neighbour of `(x, y)` in direction `k` is safe.
    pub open spec fn safe_step(&self, x: int, y: int, k: int) -> bool {
        self.safe_at(x + dir_dx(dir_of_index(k)), y + dir_dy(dir_of_index(k)))
    }

    /// The number of safe neighbours of `(x, y)`.
    pub open spec fn safe_count(&self, x: int, y: int) -> nat {
        count_where(4, |k: int| self.safe_step(x, y, k))
    }

    /// The number of safe neighbours of `(x, y)` not in `visited`.
    pub open spec fn fresh_count(&self, x: int, y: int, visited: Set<int>) -> nat {
        self.fresh_upto(x, y, visited, 4)
    }

    /// The number of safe neighbours of `(x, y)` not in `visited`, among the first
    /// `n` directions.
    pub open spec fn fresh_upto(&self, x: int, y: int, visited: Set<int>, n: int) -> nat {
        count_where(
            n,
            |k: int|
                self.safe_step(x, y, k) && !visited.contains(
                    cell_index(x + dir_dx(dir_of_index(k)), y + dir_dy(dir_of_index(k)), self.width as int),
                ),
        )
    }

    /// The corridor search from `(x, y)` at `depth` of `max`, with the cells in
    /// `visited` already seen: the depth of the dead end ahead, and the cells seen
    /// after it. The depth is `i32::MAX` when the search hits its limit or a fork.
    /// One step back that branch counts `1 + i32::MAX` in wrapping 32-bit
    /// arithmetic, that is `i32::MIN`, so it never wins the maximum over the
    /// branches: a branch that runs into the limit or a fork is dropped.
    pub open spec fn corridor(&self, x: int, y: int, visited: Set<int>, depth: int, max: int) -> (int, Set<int>)
        decreases max - depth, 5int,
    {
        if depth >= max {
            (i32::MAX as int, visited)
        } else {
            self.corridor_dirs(x, y, visited, depth, max, 0, 1)
        }
    }

    /// The corridor search at `(x, y)` over directions `k` on, with the deepest
    /// branch so far `best`. A fresh safe neighbour with at most one fresh safe
    /// neighbour of its own is followed; one with more ends the search at once.
    pub open spec fn corridor_dirs(
        &self,
        x: int,
        y: int,
        visited: Set<int>,
        depth: int,
        max: int,
        k: int,
        best: int,
    ) -> (int, Set<int>)
        decreases max - depth, 4 - k,
    {
        if k >= 4 || k < 0 || depth >= max {
            (best, visited)
        } else {
            let nx = x + dir_dx(dir_of_index(k));
            let ny = y + dir_dy(dir_of_index(k));
            let c = cell_index(nx, ny, self.width as int);
            if self.safe_at(nx, ny) && !visited.contains(c) {
                let v1 = visited.insert(c);
                if self.fresh_count(nx, ny, v1) <= 1 {
                    let sub = self.corridor(nx, ny, v1, depth + 1, max);
                    let cand = wrapping_succ(sub.0);
                    self.corridor_dirs(x, y, sub.1, depth, max, k + 1, if cand > best { cand } else { best })
                } else {
                    (i32::MAX as int, v1)
                }
            } else {
                self.corridor_dirs(x, y, visited, depth, max, k + 1, best)
            }
        }
    }

    /// The cells the corridor search starts with: `(x, y)` itself, when on the board.
    pub open spec fn corridor_start(&self, x: int, y: int) -> Set<int> {
        if 0 <= x < self.width && 0 <= y < self.height {
            Set::empty().insert(cell_index(x, y, self.width as int))
        } else {
            Set::empty()
        }
    }

    /// `(x, y)` leads into a dead end that is too short for me: it has at most two
    /// safe neighbours and the corridor search from it ends before my length plus two.
    /// A branch below the start that reaches the depth limit or a fork adds
    /// `i32::MIN` (see `corridor`) and is dropped; a fork next to the start itself
    /// gives `i32::MAX`, so no entrance.
    pub open spec fn corridor_entrance(&self, x: int, y: int) -> bool {
        self.safe_count(x, y) <= 2 && self.corridor(
            x,
            y,
            self.corridor_start(x, y),
            0,
            CORRIDOR_DEPTH_LIMIT as int,
        ).0 < self.my_length + 2
    }

    /// Whether `(x, y)` is the entrance of a corridor too short for me.
    pub fn is_corridor_entrance(&self, x: i32, y: i32) -> (b: bool)
        requires
            self.wf(),
            steppable(x as int),
            steppable(y as int),
            self.my_length <= i32::MAX - 2,
        ensures
            b == self.corridor_entrance(x as int, y as int),
    {
        let safe_neighbors = self.count_safe_neighbors(x, y);
        if safe_neighbors > 2 {
            return false;
        }
        let w = self.width as u32;
        let mut visited = Bitboard::empty();
        if self.is_in_bounds(x, y) {
            proof {
                lemma_cell_in_word(x as int, y as int, self.width as int, self.height as int);
            }
            visited = visited.set_coord(x, y, w);
        }
        assert(visited@ =~= self.corridor_start(x as int, y as int));
        let depth = self.measure_corridor_depth(x, y, &mut visited, 0, CORRIDOR_DEPTH_LIMIT);
        depth < self.my_length + 2
    }

    /// The number of safe neighbours of `(x, y)`.
    fn count_safe_neighbors(&self, x: i32, y: i32) -> (n: i32)
        requires
            self.wf(),
            steppable(x as int),
            steppable(y as int),
        ensures
            n == self.safe_count(x as int, y as int),
    {
        let mut count: i32 = 0;
        let mut k: usize = 0;
        while k < 4
            invariant
                self.wf(),
                steppable(x as int),
                steppable(y as int),
                k <= 4,
                count == count_where(k as int, |j: int| self.safe_step(x as int, y as int, j)),
                count <= k,
            decreases 4 - k,
        {
            let dir = Direction::from_index(k);
            let nx = x + dir.dx();
            let ny = y + dir.dy();
            if self.is_safe(nx, ny) {
                count += 1;
            }
            k += 1;
        }
        count
    }

    /// The corridor search of `corridor`, marking the cells it sees in `visited`.
    fn measure_corridor_depth(&self, x: i32, y: i32, visited: &mut Bitboard, depth: i32, max: i32) -> (r: i32)
        requires
            self.wf(),
            steppable(x as int),
            steppable(y as int),
            0 <= depth,
            old(visited)@.subset_of(self.masks.cells()),
        ensures
            (r as int, final(visited)@) == self.corridor(x as int, y as int, old(visited)@, depth as int, max as int),
            final(visited)@.subset_of(self.masks.cells()),
        decreases max - depth,
    {
        if depth >= max {
            return i32::MAX;
        }
        let ghost v0 = visited@;
        let w = self.width as u32;
        let mut best: i32 = 1;
        let mut k: usize = 0;
        while k < 4
            invariant
                self.wf(),
                steppable(x as int),
                steppable(y as int),
                0 <= depth < max,
                w == self.width,
                k <= 4,
                v0 == old(visited)@,
                visited@.subset_of(self.masks.cells()),
                self.corridor_dirs(x as int, y as int, visited@, depth as int, max as int, k as int, best as int)
                    == self.corridor_dirs(x as int, y as int, v0, depth as int, max as int, 0, 1),
            decreases 4 - k,
        {
            let dir = Direction::from_index(k);
            let nx = x + dir.dx();
            let ny = y + dir.dy();
            if self.is_safe(nx, ny) {
                proof {
                    lemma_cell_in_word(nx as int, ny as int, self.width as int, self.height as int);
                }
                if !visited.test_coord(nx, ny, w) {
                    let ghost vb = visited@;
                    *visited = visited.set_coord(nx, ny, w);
                    let mut next_open: i32 = 0;
                    let mut k2: usize = 0;
                    while k2 < 4
                        invariant
                            self.wf(),
                            0 <= nx < self.width,
                            0 <= ny < self.height,
                            w == self.width,
                            k2 <= 4,
                            next_open <= k2,
                            next_open == self.fresh_upto(nx as int, ny as int, visited@, k2 as int),
                        decreases 4 - k2,
                    {
                        let d2 = Direction::from_index(k2);
                        let nnx = nx + d2.dx();
                        let nny = ny + d2.dy();
                        if self.is_safe(nnx, nny) {
                            proof {
                                lemma_cell_in_word(nnx as int, nny as int, self.width as int, self.height as int);
                            }
                            if !visited.test_coord(nnx, nny, w) {
                                next_open += 1;
                            }
                        }
                        k2 += 1;
                    }
                    if next_open <= 1 {
                        let sub = self.measure_corridor_depth(nx, ny, visited, depth + 1, max);
                        let cand = 1i32.wrapping_add(sub);
                        assert(cand == wrapping_succ(sub as int));
                        if cand > best {
                            best = cand;
                        }
                    } else {
                        assert(next_open == self.fresh_count(nx as int, ny as int, visited@));
                        return i32::MAX;
                    }
                }
            }
            k += 1;
        }
        best
    }
}

} // verus!

verus! {

/// The owner the queue records for cell `c`, or -1 when `c` is not in it.
pub open spec fn entry_owner(q: Seq<(int, int)>, c: int) -> int
    decreases q.len(),
{
    if q.len() == 0 {
        -1
    } else if q.last().0 == c {
        q.last().1
    } else {
        entry_owner(q.drop_last(), c)
    }
}

/// The first of the first `n` snakes with id `id`.
pub open spec fn first_with_id(s: Seq<SnakeInfo>, id: Seq<char>, n: int) -> Option<int>
    decreases n,
{
    if n <= 0 {
        None
    } else {
        match first_with_id(s, id, n - 1) {
            Some(i) => Some(i),
            None => if s[n - 1].id@ == id {
                Some(n - 1)
            } else {
                None
            },
        }
    }
}

impl Board {
    /// My place among all snakes: the first with my id, or 0.
    pub open spec fn my_snake_index(&self) -> int {
        match first_with_id(self.all_snakes@, self.my_id@, self.all_snakes.len() as int) {
            Some(i) => i,
            None => 0,
        }
    }

    /// Where snake `si` starts the territory search: its head, or `(fx, fy)` for me.
    pub open spec fn search_start(&self, si: int, fx: int, fy: int) -> (int, int) {
        if si == self.my_snake_index() {
            (fx, fy)
        } else {
            (self.all_snakes@[si].head.x as int, self.all_snakes@[si].head.y as int)
        }
    }

    /// The queue after seeding the first `k` snakes: each start on the board and
    /// not taken by an earlier snake, owned by its snake.
    pub open spec fn seeded(&self, fx: int, fy: int, k: int) -> Seq<(int, int)>
        decreases k,
    {
        if k <= 0 {
            Seq::empty()
        } else {
            let q = self.seeded(fx, fy, k - 1);
            let p = self.search_start(k - 1, fx, fy);
            let c = cell_index(p.0, p.1, self.width as int);
            if 0 <= p.0 < self.width && 0 <= p.1 < self.height && entry_owner(q, c) < 0 {
                q.push((c, k - 1))
            } else {
                q
            }
        }
    }

    /// The queue after looking at the first `d` neighbours of entry `e`: each
    /// neighbour on the board, not yet queued and not a body cell joins with `e`'s
    /// owner.
    pub open spec fn expand_entry(&self, q: Seq<(int, int)>, e: (int, int), d: int) -> Seq<(int, int)>
        decreases d,
    {
        if d <= 0 {
            q
        } else {
            let q1 = self.expand_entry(q, e, d - 1);
            let w = self.width as int;
            let nx = e.0 % w + dir_dx(dir_of_index(d - 1));
            let ny = e.0 / w + dir_dy(dir_of_index(d - 1));
            let c = cell_index(nx, ny, w);
            if 0 <= nx < self.width && 0 <= ny < self.height && entry_owner(q1, c) < 0 && self.cells()[c]
                != CELL_BODY {
                q1.push((c, e.1))
            } else {
                q1
            }
        }
    }

    /// The queue after the first `t` entries were expanded, in order.
    pub open spec fn search_queue(&self, fx: int, fy: int, t: nat) -> Seq<(int, int)>
        decreases t,
    {
        if t == 0 {
            self.seeded(fx, fy, self.all_snakes.len() as int)
        } else {
            let q = self.search_queue(fx, fy, (t - 1) as nat);
            if t - 1 < q.len() {
                self.expand_entry(q, q[t - 1], 4)
            } else {
                q
            }
        }
    }

    /// The finished territory search from `(fx, fy)` for me.
    pub open spec fn territory_search(&self, fx: int, fy: int) -> Seq<(int, int)> {
        self.search_queue(fx, fy, (self.width * self.height) as nat)
    }
}

/// Looking up the owner of a cell in a queue whose owners are not negative.
pub proof fn lemma_entry_owner(q: Seq<(int, int)>, c: int)
    requires
        forall|i: int| 0 <= i < q.len() ==> #[trigger] q[i].1 >= 0,
    ensures
        (entry_owner(q, c) >= 0) == (exists|i: int| 0 <= i < q.len() && #[trigger] q[i].0 == c),
        entry_owner(q, c) >= -1,
        forall|i: int| 0 <= i < q.len() && #[trigger] q[i].0 == c && (forall|j: int|
            0 <= j < q.len() && j != i ==> q[j].0 != q[i].0) ==> entry_owner(q, c) == q[i].1,
    decreases q.len(),
{
    if q.len() > 0 {
        lemma_entry_owner(q.drop_last(), c);
        assert forall|i: int| 0 <= i < q.len() && #[trigger] q[i].0 == c && (forall|j: int|
            0 <= j < q.len() && j != i ==> q[j].0 != q[i].0) implies entry_owner(q, c) == q[i].1 by {
            if i < q.len() - 1 {
                assert(q.last().0 != c);
                assert(q.drop_last()[i] == q[i]);
                assert forall|j: int| 0 <= j < q.len() - 1 && j != i implies q.drop_last()[j].0 != q.drop_last()[i].0 by {
                    assert(q.drop_last()[j] == q[j]);
                }
            }
        }
        if exists|i: int| 0 <= i < q.len() && #[trigger] q[i].0 == c {
            let i = choose|i: int| 0 <= i < q.len() && #[trigger] q[i].0 == c;
            if i < q.len() - 1 {
                assert(q.drop_last()[i].0 == c);
            }
        }
        if exists|i: int| 0 <= i < q.len() - 1 && #[trigger] q.drop_last()[i].0 == c {
            let i = choose|i: int| 0 <= i < q.len() - 1 && #[trigger] q.drop_last()[i].0 == c;
            assert(q[i].0 == c);
        }
    }
}

/// A queue of distinct cells below `n` is no longer than `n`.
pub proof fn lemma_queue_bound(q: Seq<(int, int)>, n: int)
    requires
        0 <= n,
        forall|i: int| 0 <= i < q.len() ==> 0 <= #[trigger] q[i].0 < n,
        forall|i: int, j: int| 0 <= i < q.len() && 0 <= j < q.len() && i != j ==> #[trigger] q[i].0 != #[trigger] q[j].0,
    ensures
        q.len() <= n,
{
    let cs = q.map_values(|e: (int, int)| e.0);
    assert(cs.no_duplicates()) by {
        assert forall|i: int, j: int| 0 <= i < cs.len() && 0 <= j < cs.len() && i != j implies cs[i] != cs[j] by {
            assert(cs[i] == q[i].0);
            assert(cs[j] == q[j].0);
        }
    }
    cs.unique_seq_to_set();
    vstd::set_lib::lemma_int_range(0, n);
    assert(cs.to_set().subset_of(vstd::set_lib::set_int_range(0, n))) by {
        assert forall|c: int| cs.to_set().contains(c) implies vstd::set_lib::set_int_range(0, n).contains(c) by {
            let i = choose|i: int| 0 <= i < cs.len() && cs[i] == c;
            assert(cs[i] == q[i].0);
        }
    }
    vstd::set_lib::lemma_len_subset(cs.to_set(), vstd::set_lib::set_int_range(0, n));
}

impl Board {
    /// Once every queued entry has been expanded, the search is finished.
    pub proof fn lemma_search_done(&self, fx: int, fy: int, t: nat, u: nat)
        requires
            t <= u,
            self.search_queue(fx, fy, t).len() <= t,
        ensures
            self.search_queue(fx, fy, u) == self.search_queue(fx, fy, t),
        decreases u - t,
    {
        if t < u {
            self.lemma_search_done(fx, fy, t, (u - 1) as nat);
        }
    }

    /// My place among all snakes.
    fn my_snake_slot(&self) -> (r: usize)
        ensures
            r == self.my_snake_index(),
            r == 0 || r < self.all_snakes.len(),
    {
        let mut i: usize = 0;
        while i < self.all_snakes.len()
            invariant
                i <= self.all_snakes.len(),
                first_with_id(self.all_snakes@, self.my_id@, i as int) is None,
            decreases self.all_snakes.len() - i,
        {
            let same = *(&self.all_snakes[i].id) == *(&self.my_id);
            if same {
                proof {
                    lemma_first_with_id_stable(self.all_snakes@, self.my_id@, i as int + 1, self.all_snakes.len() as int);
                }
                return i;
            }
            i += 1;
        }
        0
    }
}

/// Once a snake is found among the first `a`, it is the one found among more.
pub proof fn lemma_first_with_id_stable(s: Seq<SnakeInfo>, id: Seq<char>, a: int, b: int)
    requires
        a <= b,
        first_with_id(s, id, a) is Some,
    ensures
        first_with_id(s, id, b) == first_with_id(s, id, a),
    decreases b - a,
{
    if a < b {
        lemma_first_with_id_stable(s, id, a, b - 1);
    }
}

impl Board {
    /// The arrays of the territory search hold queue `q`: its cells in order, the
    /// owner of every queued cell (-1 elsewhere), and a distance no greater than its
    /// place in the queue for every queued cell (-1 elsewhere).
    pub open spec fn search_state(&self, q: Seq<(int, int)>, dist: Seq<i32>, owner: Seq<i8>, queue: Seq<usize>) -> bool {
        let size = self.width * self.height;
        &&& dist.len() == size
        &&& owner.len() == size
        &&& queue.len() == q.len()
        &&& forall|i: int| 0 <= i < q.len() ==> #[trigger] queue[i] == q[i].0
        &&& forall|i: int| 0 <= i < q.len() ==> 0 <= #[trigger] q[i].0 < size
        &&& forall|i: int| 0 <= i < q.len() ==> 0 <= #[trigger] q[i].1 < self.all_snakes.len()
        &&& forall|i: int, j: int|
            0 <= i < q.len() && 0 <= j < q.len() && i != j ==> #[trigger] q[i].0 != #[trigger] q[j].0
        &&& forall|c: int| 0 <= c < size ==> #[trigger] owner[c] == entry_owner(q, c)
        &&& forall|c: int| 0 <= c < size ==> (#[trigger] dist[c] == -1) == (entry_owner(q, c) < 0)
        &&& forall|i: int| 0 <= i < q.len() ==> 0 <= #[trigger] dist[queue[i] as int] <= i
    }

    /// Adds cell `c` for `o` to the search when it is not queued yet.
    proof fn lemma_search_push(&self, q: Seq<(int, int)>, dist: Seq<i32>, owner: Seq<i8>, queue: Seq<usize>, c: int, o: int, d: i32)
        requires
            self.wf(),
            self.search_state(q, dist, owner, queue),
            self.all_snakes.len() <= 127,
            0 <= c < self.width * self.height,
            0 <= o < self.all_snakes.len(),
            entry_owner(q, c) < 0,
            0 <= d <= q.len(),
        ensures
            self.search_state(
                q.push((c, o)),
                dist.update(c, d),
                owner.update(c, o as i8),
                queue.push(c as usize),
            ),
    {
        let q2 = q.push((c, o));
        let queue2 = queue.push(c as usize);
        let dist2 = dist.update(c, d);
        lemma_entry_owner(q, c);
        assert forall|i: int| 0 <= i < q.len() implies #[trigger] q[i].0 != c by {}
        assert forall|x: int| 0 <= x < self.width * self.height implies (#[trigger] dist2[x] == -1) == (entry_owner(q2, x) < 0) by {
            assert(q2.drop_last() == q);
        }
        assert forall|x: int| 0 <= x < self.width * self.height implies #[trigger] owner.update(c, o as i8)[x] == entry_owner(q2, x) by {
            assert(q2.drop_last() == q);
        }
        assert forall|i: int| 0 <= i < q2.len() implies 0 <= #[trigger] dist2[queue2[i] as int] <= i by {
            if i < q.len() {
                assert(queue2[i] == queue[i]);
                assert(queue[i] as int != c);
                assert(0 <= dist[queue[i] as int] <= i);
            } else {
                assert(queue2[i] == c as usize);
                assert((c as usize) as int == c);
            }
        }
        assert forall|i: int| 0 <= i < q2.len() implies #[trigger] queue2[i] == q2[i].0 by {
            if i == q.len() {
                assert((c as usize) as int == c);
            }
        }
    }
}

impl Board {
    /// Territory by a breadth-first search from every snake's head at once (mine
    /// from `(from_x, from_y)`), through cells that are not bodies: the cells I
    /// reach first, and the cells anyone reaches. Of cells reached at the same
    /// distance, the snake whose search got there first in queue order takes it.
    pub fn voronoi_area_from(&self, from_x: i32, from_y: i32) -> (r: (i32, i32))
        requires
            self.wf(),
            self.all_snakes.len() <= 127,
            i32::MIN <= from_y * self.width <= i32::MAX,
            i32::MIN <= from_y * self.width + from_x <= i32::MAX,
        ensures
            r.0 == count_where(
                self.width * self.height,
                |c: int| entry_owner(self.territory_search(from_x as int, from_y as int), c) == self.my_snake_index(),
            ),
            r.1 == count_where(
                self.width * self.height,
                |c: int| entry_owner(self.territory_search(from_x as int, from_y as int), c) >= 0,
            ),
    {
        let ghost fx = from_x as int;
        let ghost fy = from_y as int;
        let size = (self.width * self.height) as usize;
        let mut dist: Vec<i32> = vec![-1i32; size];
        let mut owner: Vec<i8> = vec![-1i8; size];
        let mut pending: VecDeque<usize> = VecDeque::new();
        let ghost mut queue: Seq<usize> = Seq::empty();
        let ghost mut q: Seq<(int, int)> = Seq::empty();
        let my_si = self.my_snake_slot();
        let mut si: usize = 0;
        assert(self.search_state(q, dist@, owner@, queue));
        while si < self.all_snakes.len()
            invariant
                self.wf(),
                self.all_snakes.len() <= 127,
                size == self.width * self.height,
                my_si == self.my_snake_index(),
                fx == from_x,
                fy == from_y,
                si <= self.all_snakes.len(),
                q == self.seeded(fx, fy, si as int),
                self.search_state(q, dist@, owner@, queue),
                pending@ == queue,
                forall|i: int| 0 <= i < q.len() ==> #[trigger] q[i].1 < si,
            decreases self.all_snakes.len() - si,
        {
            let hx = if si == my_si { from_x } else { self.all_snakes[si].head.x };
            let hy = if si == my_si { from_y } else { self.all_snakes[si].head.y };
            if self.is_in_bounds(hx, hy) {
                proof {
                    lemma_cell_in_word(hx as int, hy as int, self.width as int, self.height as int);
                }
                let idx = (hy * self.width + hx) as usize;
                if dist[idx] == -1 {
                    proof {
                        self.lemma_search_push(q, dist@, owner@, queue, idx as int, si as int, 0);
                        q = q.push((idx as int, si as int));
                        queue = queue.push(idx);
                    }
                    dist.set(idx, 0);
                    owner.set(idx, si as i8);
                    pending.push_back(idx);
                }
            }
            si += 1;
        }
        let ghost mut qh: int = 0;
        proof {
            lemma_queue_bound(q, size as int);
            assert(queue.subrange(0, queue.len() as int) =~= queue);
        }
        while pending.len() > 0
            invariant
                self.wf(),
                self.all_snakes.len() <= 127,
                size == self.width * self.height,
                my_si == self.my_snake_index(),
                fx == from_x,
                fy == from_y,
                0 <= qh <= queue.len(),
                queue.len() <= size,
                pending@ == queue.subrange(qh, queue.len() as int),
                q == self.search_queue(fx, fy, qh as nat),
                self.search_state(q, dist@, owner@, queue),
            decreases size - qh,
        {
            let idx = pending.pop_front().unwrap();
            assert(idx == queue[qh]);
            let ghost pending0 = pending@;
            let ghost queue_before = queue;
            let ghost e = q[qh as int];
            let ghost q0 = q;
            let x = (idx as i32) % self.width;
            let y = (idx as i32) / self.width;
            let d = dist[idx];
            proof {
                lemma_entry_owner(q, idx as int);
                crate::heuristic::lemma_cell_split(idx as int, self.width as int, self.height as int);
            }
            let mut k: usize = 0;
            while k < 4
                invariant
                    self.wf(),
                    self.all_snakes.len() <= 127,
                    size == self.width * self.height,
                    qh < q0.len(),
                    e == q0[qh as int],
                    idx == e.0,
                    x == e.0 % (self.width as int),
                    y == e.0 / (self.width as int),
                    0 <= x < self.width,
                    0 <= y < self.height,
                    0 <= d <= qh,
                    k <= 4,
                    q == self.expand_entry(q0, e, k as int),
                    q0.len() <= q.len(),
                    forall|i: int| 0 <= i < q0.len() ==> #[trigger] q[i] == q0[i],
                    self.search_state(q, dist@, owner@, queue),
                    queue_before.len() <= queue.len(),
                    pending@ == queue.subrange(qh + 1, queue.len() as int),
                    qh < queue_before.len(),
                decreases 4 - k,
            {
                let dir = Direction::from_index(k);
                let nx = x + dir.dx();
                let ny = y + dir.dy();
                if self.is_in_bounds(nx, ny) {
                    proof {
                        lemma_cell_in_word(nx as int, ny as int, self.width as int, self.height as int);
                    }
                    let nidx = (ny * self.width + nx) as usize;
                    if dist[nidx] == -1 && self.grid[nidx] != CELL_BODY {
                        proof {
                            lemma_entry_owner(q, idx as int);
                            lemma_queue_bound(q, size as int);
                            assert(q[qh as int] == e);
                        }
                        let o = owner[idx];
                        proof {
                            self.lemma_search_push(q, dist@, owner@, queue, nidx as int, e.1, (d + 1) as i32);
                            q = q.push((nidx as int, e.1));
                            queue = queue.push(nidx);
                        }
                        dist.set(nidx, d + 1);
                        owner.set(nidx, o);
                        pending.push_back(nidx);
                        assert(pending@ =~= queue.subrange(qh + 1, queue.len() as int));
                    }
                }
                k += 1;
            }
            proof {
                qh = qh + 1;
                lemma_queue_bound(q, size as int);
            }
        }
        proof {
            self.lemma_search_done(fx, fy, qh as nat, size as nat);
        }
        let my_idx = my_si as i8;
        let mut my_area: i32 = 0;
        let mut total: i32 = 0;
        let mut c: usize = 0;
        while c < size
            invariant
                self.wf(),
                self.all_snakes.len() <= 127,
                size == self.width * self.height,
                my_si == self.my_snake_index(),
                my_idx == my_si,
                c <= size,
                q == self.territory_search(fx, fy),
                self.search_state(q, dist@, owner@, queue),
                my_area <= c,
                total <= c,
                my_area == count_where(c as int, |j: int| entry_owner(self.territory_search(fx, fy), j) == self.my_snake_index()),
                total == count_where(c as int, |j: int| entry_owner(self.territory_search(fx, fy), j) >= 0),
            decreases size - c,
        {
            proof {
                lemma_entry_owner(q, c as int);
            }
            if owner[c] >= 0 {
                total += 1;
                if owner[c] == my_idx {
                    my_area += 1;
                }
            }
            c += 1;
        }
        (my_area, total)
    }

    /// My territory from my own head, as `voronoi_area_from` counts it.
    pub fn voronoi_area(&self) -> (r: (i32, i32))
        requires
            self.wf(),
            self.all_snakes.len() <= 127,
        ensures
            r.0 == count_where(
                self.width * self.height,
                |c: int| entry_owner(self.territory_search(self.my_head.x as int, self.my_head.y as int), c)
                    == self.my_snake_index(),
            ),
            r.1 == count_where(
                self.width * self.height,
                |c: int| entry_owner(self.territory_search(self.my_head.x as int, self.my_head.y as int), c) >= 0,
            ),
    {
        proof {
            lemma_cell_in_word(
                self.my_head.x as int,
                self.my_head.y as int,
                self.width as int,
                self.height as int,
            );
        }
        self.voronoi_area_from(self.my_head.x, self.my_head.y)
    }
}

} // verus!
