//! A compact game state that applies the rules of a turn: snakes on ring buffers,
//! food, hazards and occupied cells on 128-bit boards.
use vstd::prelude::*;
use crate::bitboard::{BoardMasks, cell_index};
use crate::api::{ApiGameState, ApiBattlesnake, ApiCoord};
use crate::bits::{bit, bits, lemma_bit_or, lemma_bit_single, lemma_bit_not, lemma_bit_and, lemma_bit_zero, lemma_test_single};
use crate::types::{Direction, dir_dx, dir_dy, dir_of_index, dir_index};
use vstd::string::StringSliceAdditionalSpecFns;

verus! {

/// The number of snakes a state can hold.
pub const MAX_SNAKES: usize = 8;

/// The capacity of a snake's ring buffer.
pub const BODY_CAP: usize = 128;

/// A snake: its body is `len` cells of a ring buffer, head first.
#[derive(Clone, Copy)]
pub struct SnakeState {
    pub health: i16,
    pub body: [u8; BODY_CAP],
    pub head_ptr: u8,
    pub len: u8,
    pub alive: bool,
    pub id_hash: u64,
    pub is_my_snake: bool,
}

proof fn lemma_mask_is_mod(x: usize)
    by (bit_vector)
    ensures
        x & 127usize == x % 128usize,
{
}

proof fn lemma_u8_mask(x: u8)
    by (bit_vector)
    ensures
        x & 127u8 == x % 128u8,
{
}

proof fn lemma_u8_mask_is_mod(x: u8)
    ensures
        x.wrapping_sub(1) & 127u8 == (x as int + 127) % 128,
{
    lemma_u8_mask(x.wrapping_sub(1));
}

impl SnakeState {
    /// Segment `k` of the body, counted from the head.
    pub open spec fn seg(&self, k: int) -> u8 {
        self.body[(self.head_ptr + k) % 128]
    }

    /// The body, head first.
    pub open spec fn body_seq(&self) -> Seq<u8> {
        Seq::new(self.len as nat, |k: int| self.seg(k))
    }

    /// The tail and the segment before it are on the same cell (the snake has just
    /// eaten or is at its starting length).
    pub open spec fn stacked(&self) -> bool {
        self.len >= 2 && self.seg(self.len - 1) == self.seg(self.len - 2)
    }

    pub fn head(&self) -> (r: u8)
        requires
            self.head_ptr < 128,
        ensures
            r == self.seg(0),
    {
        self.body[self.head_ptr as usize]
    }

    pub fn tail(&self) -> (r: u8)
        requires
            self.head_ptr + self.len >= 1,
        ensures
            r == self.seg(self.len - 1),
    {
        let i = self.head_ptr as usize + self.len as usize - 1;
        proof {
            lemma_mask_is_mod(i);
        }
        self.body[i & (BODY_CAP - 1)]
    }

    /// The segment before the tail, or the tail of a snake shorter than two.
    pub fn penultimate(&self) -> (r: u8)
        requires
            self.head_ptr + self.len >= 1,
        ensures
            r == (if self.len < 2 {
                self.seg(self.len - 1)
            } else {
                self.seg(self.len - 2)
            }),
    {
        if self.len < 2 {
            return self.tail();
        }
        let i = self.head_ptr as usize + self.len as usize - 2;
        proof {
            lemma_mask_is_mod(i);
        }
        self.body[i & (BODY_CAP - 1)]
    }

    pub fn tail_is_stacked(&self) -> (r: bool)
        requires
            self.head_ptr + self.len >= 1,
        ensures
            r == self.stacked(),
    {
        self.len >= 2 && self.tail() == self.penultimate()
    }

    /// The direction of the last move: from the neck to the head.
    pub fn current_direction(&self, width: u8) -> (r: Option<Direction>)
        requires
            width > 0,
            self.len >= 2 ==> self.head_ptr < 128,
        ensures
            r == (if self.len < 2 {
                None
            } else {
                move_between(self.seg(1) as int, self.seg(0) as int, width as int)
            }),
    {
        if self.len < 2 {
            return None;
        }
        let head = self.head();
        let j = self.head_ptr as usize + 1;
        proof {
            lemma_mask_is_mod(j);
        }
        let neck = self.body[j & (BODY_CAP - 1)];
        let hx = (head % width) as i32;
        let hy = (head / width) as i32;
        let nx = (neck % width) as i32;
        let ny = (neck / width) as i32;
        let dx = hx - nx;
        let dy = hy - ny;
        if dx == 1 && dy == 0 {
            Some(Direction::Right)
        } else if dx == -1 && dy == 0 {
            Some(Direction::Left)
        } else if dx == 0 && dy == 1 {
            Some(Direction::Up)
        } else if dx == 0 && dy == -1 {
            Some(Direction::Down)
        } else {
            None
        }
    }

    /// Puts a new head in front of the body; the length saturates at 255.
    pub fn push_head(&mut self, pos: u8)
        ensures
            final(self).head_ptr == (old(self).head_ptr + 127) % 128,
            final(self).body@ == old(self).body@.update(final(self).head_ptr as int, pos),
            final(self).len == (if old(self).len < 255 { old(self).len + 1 } else { 255 }),
            final(self).health == old(self).health,
            final(self).alive == old(self).alive,
            final(self).id_hash == old(self).id_hash,
            final(self).is_my_snake == old(self).is_my_snake,
            old(self).head_ptr < 128 && old(self).len < 128 ==> final(self).body_seq() == seq![
                pos,
            ] + old(self).body_seq(),
    {
        proof {
            lemma_u8_mask_is_mod(self.head_ptr);
        }
        self.head_ptr = self.head_ptr.wrapping_sub(1) & (BODY_CAP as u8 - 1);
        self.body[self.head_ptr as usize] = pos;
        self.len = self.len.saturating_add(1);
        proof {
            let o = old(self);
            let f = *self;
            if o.head_ptr < 128 && o.len < 128 {
                assert forall|k: int| 0 <= k < f.len implies #[trigger] f.seg(k) == (seq![pos]
                    + o.body_seq())[k] by {
                    if k == 0 {
                        assert((f.head_ptr + 0) % 128 == f.head_ptr);
                    } else {
                        assert((f.head_ptr + k) % 128 == (o.head_ptr + (k - 1)) % 128);
                        assert((o.head_ptr + (k - 1)) % 128 != f.head_ptr as int);
                    }
                }
                assert(f.body_seq() =~= seq![pos] + o.body_seq());
            }
        }
    }

    /// Drops the tail and returns it.
    pub fn pop_tail(&mut self) -> (r: u8)
        requires
            old(self).len >= 1,
        ensures
            r == old(self).seg(old(self).len - 1),
            *final(self) == (SnakeState { len: (old(self).len - 1) as u8, ..*old(self) }),
            final(self).body_seq() == old(self).body_seq().drop_last(),
    {
        let old_tail = self.tail();
        self.len -= 1;
        assert(self.body_seq() =~= old(self).body_seq().drop_last());
        old_tail
    }
}

/// The move that goes from cell `from` to the neighbouring cell `to` on a board of
/// width `w`, if the two cells are neighbours in that sense.
pub open spec fn move_between(from: int, to: int, w: int) -> Option<Direction> {
    let dx = to % w - from % w;
    let dy = to / w - from / w;
    if dx == 1 && dy == 0 {
        Some(Direction::Right)
    } else if dx == -1 && dy == 0 {
        Some(Direction::Left)
    } else if dx == 0 && dy == 1 {
        Some(Direction::Up)
    } else if dx == 0 && dy == -1 {
        Some(Direction::Down)
    } else {
        None
    }
}

/// The FNV-1a hash of a byte string.
pub open spec fn fnv_spec(bytes: Seq<u8>) -> u64
    decreases bytes.len(),
{
    if bytes.len() == 0 {
        14695981039346656037u64
    } else {
        (fnv_spec(bytes.drop_last()) ^ (bytes.last() as u64)).wrapping_mul(1099511628211u64)
    }
}

/// The FNV-1a hash of the UTF-8 bytes of `s`.
pub fn fnv_hash(s: &str) -> (h: u64)
    ensures
        h == fnv_spec(s.spec_bytes()),
{
    let bytes = s.as_bytes();
    let mut hash: u64 = 14695981039346656037;
    let mut i: usize = 0;
    while i < bytes.len()
        invariant
            i <= bytes@.len(),
            bytes@ == s.spec_bytes(),
            hash == fnv_spec(bytes@.take(i as int)),
        decreases bytes@.len() - i,
    {
        assert(bytes@.take(i + 1).drop_last() =~= bytes@.take(i as int));
        hash ^= bytes[i] as u64;
        hash = hash.wrapping_mul(1099511628211);
        i += 1;
    }
    assert(bytes@.take(i as int) =~= bytes@);
    hash
}

} // verus!

verus! {

/// A game state sized for search: at most eight snakes on at most 128 cells.
#[derive(Clone, Copy)]
pub struct SimState {
    pub width: u8,
    pub height: u8,
    pub turn: u16,
    pub food: u128,
    pub hazards: u128,
    pub hazard_damage: i16,
    pub snakes: [SnakeState; MAX_SNAKES],
    pub num_snakes: u8,
    pub my_idx: u8,
    pub all_bodies: u128,
    pub masks: BoardMasks,
}

/// Whether `(x, y)` lies on a `w` x `h` board.
pub open spec fn in_board(x: int, y: int, w: int, h: int) -> bool {
    0 <= x < w && 0 <= y < h
}

impl SimState {
    /// The board is at most 128 cells and matches the masks; there are at most eight
    /// snakes; every ring buffer pointer is in range and every live snake has a body
    /// of board cells.
    pub open spec fn wf(&self) -> bool {
        &&& 1 <= self.width
        &&& 1 <= self.height
        &&& self.width * self.height <= 128
        &&& self.masks.wf()
        &&& self.masks.width == self.width
        &&& self.masks.height == self.height
        &&& self.num_snakes <= MAX_SNAKES
        &&& self.my_idx < MAX_SNAKES
        &&& forall|i: int| 0 <= i < MAX_SNAKES ==> #[trigger] self.snakes[i].head_ptr < 128
        &&& forall|i: int|
            0 <= i < MAX_SNAKES && #[trigger] self.snakes[i].alive ==> self.snakes[i].len >= 1
        &&& forall|i: int, k: int|
            0 <= i < MAX_SNAKES && self.snakes[i].alive && 0 <= k < self.snakes[i].len ==> #[trigger] self.snakes[i].seg(k)
                < self.width * self.height
    }

    /// The cells where a tail will move away this turn: the tails of live snakes
    /// whose tail is not stacked.
    pub open spec fn moving_tails(&self) -> Set<int> {
        Set::new(
            |p: int|
                exists|i: int|
                    0 <= i < self.num_snakes && #[trigger] self.snakes[i].alive && !self.snakes[i].stacked()
                        && self.snakes[i].seg(self.snakes[i].len - 1) == p,
        )
    }

    /// A cell a snake may move into: not occupied, or freed by a moving tail.
    pub open spec fn safe_cell(&self, p: int) -> bool {
        !bits(self.all_bodies).contains(p) || self.moving_tails().contains(p)
    }

    /// Whether snake `idx` can move in direction `d`: it is alive, the cell stays on
    /// the board and is safe.
    pub open spec fn valid_move(&self, idx: int, d: Direction) -> bool {
        let head = self.snakes[idx].seg(0) as int;
        let x = head % self.width as int + dir_dx(d);
        let y = head / self.width as int + dir_dy(d);
        &&& self.snakes[idx].alive
        &&& in_board(x, y, self.width as int, self.height as int)
        &&& self.safe_cell(cell_index(x, y, self.width as int))
    }

    /// The number of live snakes among the first `k`.
    pub open spec fn alive_count(&self, k: int) -> nat
        decreases k,
    {
        if k <= 0 {
            0
        } else {
            self.alive_count(k - 1) + (if self.snakes[k - 1].alive {
                1nat
            } else {
                0nat
            })
        }
    }

    /// The number of live snakes among the first `k`, other than mine.
    pub open spec fn alive_enemies(&self, k: int) -> nat
        decreases k,
    {
        if k <= 0 {
            0
        } else {
            self.alive_enemies(k - 1) + (if k - 1 != self.my_idx && self.snakes[k - 1].alive {
                1nat
            } else {
                0nat
            })
        }
    }

    pub fn my_snake(&self) -> (s: &SnakeState)
        requires
            self.my_idx < MAX_SNAKES,
        ensures
            *s == self.snakes[self.my_idx as int],
    {
        &self.snakes[self.my_idx as usize]
    }

    /// The cells of the moving tails, as a bitboard.
    pub fn moving_tails_bb(&self) -> (bb: u128)
        requires
            self.wf(),
        ensures
            bits(bb) == self.moving_tails(),
    {
        let mut bb = 0u128;
        let mut i: usize = 0;
        proof {
            lemma_bit_zero();
        }
        while i < self.num_snakes as usize
            invariant
                self.wf(),
                i <= self.num_snakes,
                forall|p: int|
                    #[trigger] bit(bb, p) == exists|j: int|
                        0 <= j < i && #[trigger] self.snakes[j].alive && !self.snakes[j].stacked()
                            && self.snakes[j].seg(self.snakes[j].len - 1) == p,
            decreases self.num_snakes - i,
        {
            let s = &self.snakes[i];
            if s.alive && !s.tail_is_stacked() {
                let t = s.tail();
                assert(t < self.width * self.height);
                let old_bb = bb;
                bb = bb | (1u128 << t);
                proof {
                    lemma_bit_or(old_bb, 1u128 << t);
                    lemma_bit_single(t as u128);
                    assert forall|p: int| #[trigger] bit(bb, p) == exists|j: int|
                        0 <= j < i + 1 && #[trigger] self.snakes[j].alive && !self.snakes[j].stacked()
                            && self.snakes[j].seg(self.snakes[j].len - 1) == p by {
                        if p == t {
                            assert(self.snakes[i as int].alive);
                        }
                    }
                }
            } else {
                assert forall|p: int| #[trigger] bit(bb, p) == exists|j: int|
                    0 <= j < i + 1 && #[trigger] self.snakes[j].alive && !self.snakes[j].stacked()
                        && self.snakes[j].seg(self.snakes[j].len - 1) == p by {
                    if exists|j: int|
                        0 <= j < i + 1 && #[trigger] self.snakes[j].alive && !self.snakes[j].stacked()
                            && self.snakes[j].seg(self.snakes[j].len - 1) == p {
                        let j = choose|j: int|
                            0 <= j < i + 1 && #[trigger] self.snakes[j].alive && !self.snakes[j].stacked()
                                && self.snakes[j].seg(self.snakes[j].len - 1) == p;
                        assert(j != i);
                    }
                }
            }
            i += 1;
        }
        assert(bits(bb) =~= self.moving_tails());
        bb
    }

    /// For each direction of `Direction::ALL`, that direction if snake `snake_idx`
    /// can take it.
    pub fn get_valid_moves(&self, snake_idx: usize) -> (r: [Option<Direction>; 4])
        requires
            self.wf(),
            snake_idx < MAX_SNAKES,
        ensures
            forall|d: int|
                0 <= d < 4 ==> #[trigger] r[d] == (if self.valid_move(snake_idx as int, dir_of_index(d)) {
                    Some(dir_of_index(d))
                } else {
                    None
                }),
    {
        let s = &self.snakes[snake_idx];
        if !s.alive {
            return [None; 4];
        }
        let head = s.head();
        let hx = (head % self.width) as i32;
        let hy = (head / self.width) as i32;
        let w = self.width as i32;
        let h = self.height as i32;
        let moving_tails = self.moving_tails_bb();
        let safe = !self.all_bodies | moving_tails;
        proof {
            lemma_bit_not(self.all_bodies);
            lemma_bit_or(!self.all_bodies, moving_tails);
        }
        let mut result: [Option<Direction>; 4] = [None; 4];
        let mut i: usize = 0;
        while i < 4
            invariant
                self.wf(),
                snake_idx < MAX_SNAKES,
                self.snakes[snake_idx as int].alive,
                head == self.snakes[snake_idx as int].seg(0),
                hx == head % self.width,
                hy == head / self.width,
                w == self.width,
                h == self.height,
                bits(moving_tails) == self.moving_tails(),
                forall|p: int| #[trigger] bit(safe, p) == (0 <= p < 128 && self.safe_cell(p)),
                i <= 4,
                forall|d: int|
                    0 <= d < 4 ==> #[trigger] result[d] == (if d < i && self.valid_move(
                        snake_idx as int,
                        dir_of_index(d),
                    ) {
                        Some(dir_of_index(d))
                    } else {
                        None
                    }),
            decreases 4 - i,
        {
            let dir = Direction::from_index(i);
            let nx = hx + dir.dx();
            let ny = hy + dir.dy();
            if nx < 0 || nx >= w || ny < 0 || ny >= h {
                i += 1;
                continue;
            }
            proof {
                lemma_cell_in_word(nx as int, ny as int, w as int, h as int);
            }
            let npos = (ny as u8) * self.width + (nx as u8);
            proof {
                lemma_test_single(safe, npos as u128);
            }
            if safe & (1u128 << npos) != 0 {
                result[i] = Some(dir);
            }
            i += 1;
        }
        result
    }

    pub fn is_alive(&self, snake_idx: usize) -> (b: bool)
        requires
            self.num_snakes <= MAX_SNAKES,
        ensures
            b == (snake_idx < self.num_snakes && self.snakes[snake_idx as int].alive),
    {
        snake_idx < self.num_snakes as usize && self.snakes[snake_idx].alive
    }

    /// The game is over when at most one snake is alive.
    pub fn is_game_over(&self) -> (b: bool)
        requires
            self.num_snakes <= MAX_SNAKES,
        ensures
            b == (self.alive_count(self.num_snakes as int) <= 1),
    {
        let mut alive: usize = 0;
        let mut i: usize = 0;
        while i < self.num_snakes as usize
            invariant
                self.num_snakes <= MAX_SNAKES,
                i <= self.num_snakes,
                alive == self.alive_count(i as int),
                alive <= i,
            decreases self.num_snakes - i,
        {
            if self.snakes[i].alive {
                alive += 1;
            }
            i += 1;
        }
        alive <= 1
    }

    /// The number of live snakes other than mine.
    pub fn alive_enemy_count(&self) -> (n: usize)
        requires
            self.num_snakes <= MAX_SNAKES,
        ensures
            n == self.alive_enemies(self.num_snakes as int),
    {
        let mut n: usize = 0;
        let mut i: usize = 0;
        while i < self.num_snakes as usize
            invariant
                self.num_snakes <= MAX_SNAKES,
                i <= self.num_snakes,
                n == self.alive_enemies(i as int),
                n <= i,
            decreases self.num_snakes - i,
        {
            if i != self.my_idx as usize && self.snakes[i].alive {
                n += 1;
            }
            i += 1;
        }
        n
    }
}

/// A cell on a board of at most 128 cells has an index that fits a byte.
pub proof fn lemma_cell_in_word(x: int, y: int, w: int, h: int)
    requires
        in_board(x, y, w, h),
        w * h <= 128,
    ensures
        0 <= y * w,
        y * w + x < w * h,
        y * w + x < 128,
        y * w <= 127,
        0 <= x < 128,
        0 <= y < 128,
{
    assert(y <= y * w) by (nonlinear_arith)
        requires
            0 <= y,
            1 <= w,
    ;
    assert(0 <= y * w) by (nonlinear_arith)
        requires
            0 <= y,
            0 <= w,
    ;
    assert(y * w + x < w * h) by (nonlinear_arith)
        requires
            0 <= y < h,
            0 <= x < w,
    ;
}

} // verus!

verus! {

/// The rules of one turn, stated over the state before the turn and the moves.
impl SimState {
    /// The head of snake `i`, as column and row.
    pub open spec fn head_x(&self, i: int) -> int {
        self.snakes[i].seg(0) as int % self.width as int
    }

    pub open spec fn head_y(&self, i: int) -> int {
        self.snakes[i].seg(0) as int / self.width as int
    }

    /// Snake `i` is alive and is given a move.
    pub open spec fn has_move(&self, moves: [Option<Direction>; MAX_SNAKES], i: int) -> bool {
        0 <= i < self.num_snakes && self.snakes[i].alive && moves[i] is Some
    }

    /// Snake `i` moves off the board.
    pub open spec fn goes_out(&self, moves: [Option<Direction>; MAX_SNAKES], i: int) -> bool {
        self.has_move(moves, i) && !in_board(
            self.head_x(i) + dir_dx(moves[i]->0),
            self.head_y(i) + dir_dy(moves[i]->0),
            self.width as int,
            self.height as int,
        )
    }

    /// The cell snake `i` moves its head to. A live snake without a move, in range,
    /// is moved to cell 0.
    pub open spec fn target_cell(&self, moves: [Option<Direction>; MAX_SNAKES], i: int) -> u8 {
        if self.has_move(moves, i) && !self.goes_out(moves, i) {
            cell_index(
                self.head_x(i) + dir_dx(moves[i]->0),
                self.head_y(i) + dir_dy(moves[i]->0),
                self.width as int,
            ) as u8
        } else {
            0
        }
    }

    /// Snake `i` is alive and stays on the board, so its body advances.
    pub open spec fn advances(&self, moves: [Option<Direction>; MAX_SNAKES], i: int) -> bool {
        0 <= i < self.num_snakes && self.snakes[i].alive && !self.goes_out(moves, i)
    }

    /// Snake `i` advances onto food.
    pub open spec fn eats(&self, moves: [Option<Direction>; MAX_SNAKES], i: int) -> bool {
        self.advances(moves, i) && bit(self.food, self.target_cell(moves, i) as int)
    }

    /// The ring buffer pointer of snake `i` after the move.
    pub open spec fn moved_head_ptr(&self, moves: [Option<Direction>; MAX_SNAKES], i: int) -> u8 {
        if self.advances(moves, i) {
            ((self.snakes[i].head_ptr + 127) % 128) as u8
        } else {
            self.snakes[i].head_ptr
        }
    }

    /// The ring buffer of snake `i` after the move.
    pub open spec fn moved_body(&self, moves: [Option<Direction>; MAX_SNAKES], i: int) -> Seq<u8> {
        if self.advances(moves, i) {
            self.snakes[i].body@.update(
                self.moved_head_ptr(moves, i) as int,
                self.target_cell(moves, i),
            )
        } else {
            self.snakes[i].body@
        }
    }

    /// The length of snake `i` after the move: one more if it ate (up to 255).
    pub open spec fn moved_len(&self, moves: [Option<Direction>; MAX_SNAKES], i: int) -> u8 {
        let l = self.snakes[i].len;
        let grown: int = if l < 255 {
            l + 1
        } else {
            255
        };
        if self.advances(moves, i) {
            if self.eats(moves, i) {
                grown as u8
            } else {
                (grown - 1) as u8
            }
        } else {
            l
        }
    }

    /// Segment `k` of snake `i` after the move.
    pub open spec fn moved_seg(&self, moves: [Option<Direction>; MAX_SNAKES], i: int, k: int) -> u8 {
        self.moved_body(moves, i)[(self.moved_head_ptr(moves, i) + k) % 128]
    }

    /// Snake `i` after the move, before hazards.
    pub open spec fn moved_snake(&self, moves: [Option<Direction>; MAX_SNAKES], i: int) -> SnakeState {
        let s = self.snakes[i];
        if self.advances(moves, i) {
            SnakeState {
                health: self.moved_health(moves, i) as i16,
                body: vstd::array::spec_array_update(
                    s.body,
                    self.moved_head_ptr(moves, i) as int,
                    self.target_cell(moves, i),
                ),
                head_ptr: self.moved_head_ptr(moves, i),
                len: self.moved_len(moves, i),
                ..s
            }
        } else {
            s
        }
    }

    /// Snake `i` after the move and the hazards.
    pub open spec fn final_snake(&self, moves: [Option<Direction>; MAX_SNAKES], i: int) -> SnakeState {
        SnakeState { health: self.final_health(moves, i) as i16, ..self.moved_snake(moves, i) }
    }

    /// The health of snake `i` after the move, before hazards: 100 if it ate, one
    /// less if it advanced.
    pub open spec fn moved_health(&self, moves: [Option<Direction>; MAX_SNAKES], i: int) -> int {
        if self.advances(moves, i) {
            if self.eats(moves, i) {
                100
            } else {
                self.snakes[i].health - 1
            }
        } else {
            self.snakes[i].health as int
        }
    }

    /// Snake `i` is alive and its head after the move stands on a hazard.
    pub open spec fn in_hazard(&self, moves: [Option<Direction>; MAX_SNAKES], i: int) -> bool {
        0 <= i < self.num_snakes && self.snakes[i].alive && bit(
            self.hazards,
            self.moved_seg(moves, i, 0) as int,
        )
    }

    /// The health of snake `i` at the end of the turn.
    pub open spec fn final_health(&self, moves: [Option<Direction>; MAX_SNAKES], i: int) -> int {
        if self.in_hazard(moves, i) {
            self.moved_health(moves, i) - self.hazard_damage
        } else {
            self.moved_health(moves, i)
        }
    }

    /// The occupied cells after the move: the old ones without moving tails, plus
    /// the new heads and the tails of snakes that ate.
    pub open spec fn bodies_after_move(&self, moves: [Option<Direction>; MAX_SNAKES]) -> Set<int> {
        Set::new(
            |p: int|
                (bits(self.all_bodies).contains(p) && !self.moving_tails().contains(p)) || (exists|i: int|
                    #[trigger] self.advances(moves, i) && self.target_cell(moves, i) == p) || (exists|i: int|
                    #[trigger] self.eats(moves, i) && self.snakes[i].seg(self.snakes[i].len - 1) == p),
        )
    }

    /// The new head of snake `i` lands on a body segment that stays in place: a
    /// segment of any live snake other than a moving tail, and other than its own
    /// old head.
    pub open spec fn hits_body(&self, moves: [Option<Direction>; MAX_SNAKES], i: int) -> bool {
        let head = self.moved_seg(moves, i, 0);
        &&& bits(self.all_bodies).contains(head as int)
        &&& !self.moving_tails().contains(head as int)
        &&& exists|j: int, k: int|
            0 <= j < self.num_snakes && self.snakes[j].alive && 0 <= k < self.snakes[j].len && !(k
                == self.snakes[j].len - 1 && !self.snakes[j].stacked()) && #[trigger] self.snakes[j].seg(k)
                == head && !(j == i && k == 0)
    }

    /// Snake `i` dies on its own: off the board, starved, or into a body.
    pub open spec fn dies_alone(&self, moves: [Option<Direction>; MAX_SNAKES], i: int) -> bool {
        0 <= i < self.num_snakes && self.snakes[i].alive && (self.goes_out(moves, i)
            || self.final_health(moves, i) <= 0 || self.hits_body(moves, i))
    }

    /// The deaths from running alone, one flag per slot.
    pub open spec fn solo_deaths(&self, moves: [Option<Direction>; MAX_SNAKES]) -> Seq<bool> {
        Seq::new(MAX_SNAKES as nat, |i: int| self.dies_alone(moves, i))
    }

    /// Settles the meeting of the heads of snakes `i` and `j`, both still standing:
    /// the shorter dies, and both die at equal length.
    pub open spec fn meet(&self, moves: [Option<Direction>; MAX_SNAKES], e: Seq<bool>, i: int, j: int) -> Seq<bool> {
        if self.snakes[i].alive && self.snakes[j].alive && !e[i] && !e[j] && self.moved_seg(moves, i, 0)
            == self.moved_seg(moves, j, 0) {
            let li = self.moved_len(moves, i);
            let lj = self.moved_len(moves, j);
            if li > lj {
                e.update(j, true)
            } else if lj > li {
                e.update(i, true)
            } else {
                e.update(i, true).update(j, true)
            }
        } else {
            e
        }
    }

    /// Settles all head meetings, pair by pair in order, from pair `(i, j)` on.
    pub open spec fn meetings(&self, moves: [Option<Direction>; MAX_SNAKES], e: Seq<bool>, i: int, j: int) -> Seq<bool>
        decreases self.num_snakes - i, self.num_snakes - j,
    {
        if i >= self.num_snakes || i < 0 {
            e
        } else if j >= self.num_snakes {
            self.meetings(moves, e, i + 1, i + 2)
        } else if j <= i {
            self.meetings(moves, e, i, i + 1)
        } else {
            self.meetings(moves, self.meet(moves, e, i, j), i, j + 1)
        }
    }

    /// The snakes that die this turn.
    pub open spec fn deaths(&self, moves: [Option<Direction>; MAX_SNAKES]) -> Seq<bool> {
        self.meetings(moves, self.solo_deaths(moves), 0, 1)
    }

    /// The cells of the snakes that die this turn, after their move.
    pub open spec fn dead_cells(&self, moves: [Option<Direction>; MAX_SNAKES]) -> Set<int> {
        Set::new(
            |p: int|
                exists|i: int, k: int|
                    0 <= i < self.num_snakes && self.deaths(moves)[i] && 0 <= k < self.moved_len(moves, i) && #[trigger] self.moved_seg(moves, i, k) == p,
        )
    }

    /// The food eaten this turn.
    pub open spec fn eaten(&self, moves: [Option<Direction>; MAX_SNAKES]) -> Set<int> {
        Set::new(|p: int| exists|i: int| #[trigger] self.eats(moves, i) && self.target_cell(moves, i) == p)
    }

    /// The turn can be played without arithmetic overflow: health stays in range.
    pub open spec fn turn_in_range(&self, moves: [Option<Direction>; MAX_SNAKES]) -> bool {
        &&& self.turn < u16::MAX
        &&& forall|i: int| #[trigger] self.advances(moves, i) ==> self.snakes[i].health > i16::MIN
        &&& forall|i: int|
            #[trigger] self.in_hazard(moves, i) ==> i16::MIN <= self.moved_health(moves, i)
                - self.hazard_damage <= i16::MAX
    }
}

} // verus!

verus! {

impl SimState {
    /// The cell each snake moves to, and whether it leaves the board.
    fn plan_moves(&self, moves: &[Option<Direction>; MAX_SNAKES]) -> (r: ([u8; MAX_SNAKES], [bool; MAX_SNAKES]))
        requires
            self.wf(),
        ensures
            forall|i: int| 0 <= i < MAX_SNAKES ==> #[trigger] r.0[i] == self.target_cell(*moves, i),
            forall|i: int| 0 <= i < MAX_SNAKES ==> #[trigger] r.1[i] == self.goes_out(*moves, i),
    {
        let mut new_heads: [u8; MAX_SNAKES] = [0u8, 0, 0, 0, 0, 0, 0, 0];
        let mut went_oob: [bool; MAX_SNAKES] = [false, false, false, false, false, false, false, false];
        let w = self.width as i32;
        let h = self.height as i32;
        let mut i: usize = 0;
        while i < self.num_snakes as usize
            invariant
                self.wf(),
                i <= self.num_snakes,
                w == self.width,
                h == self.height,
                forall|j: int|
                    0 <= j < MAX_SNAKES ==> #[trigger] new_heads[j] == (if j < i {
                        self.target_cell(*moves, j)
                    } else {
                        0u8
                    }),
                forall|j: int| 0 <= j < MAX_SNAKES ==> #[trigger] went_oob[j] == (j < i && self.goes_out(*moves, j)),
            decreases self.num_snakes - i,
        {
            let s = &self.snakes[i];
            if !s.alive {
                i += 1;
                continue;
            }
            let dir = match moves[i] {
                Some(d) => d,
                None => {
                    i += 1;
                    continue;
                },
            };
            let head = s.head();
            let hx = (head % self.width) as i32;
            let hy = (head / self.width) as i32;
            let nx = hx + dir.dx();
            let ny = hy + dir.dy();
            if nx < 0 || nx >= w || ny < 0 || ny >= h {
                went_oob[i] = true;
            } else {
                proof {
                    lemma_cell_in_word(nx as int, ny as int, w as int, h as int);
                }
                new_heads[i] = (ny as u8) * self.width + (nx as u8);
                assert(new_heads[i as int] == self.target_cell(*moves, i as int));
            }
            i += 1;
        }
        (new_heads, went_oob)
    }

    /// Which snakes eat this turn.
    fn plan_eating(&self, moves: &[Option<Direction>; MAX_SNAKES], new_heads: [u8; MAX_SNAKES], went_oob: [bool; MAX_SNAKES]) -> (r: [bool; MAX_SNAKES])
        requires
            self.wf(),
            forall|i: int| 0 <= i < MAX_SNAKES ==> #[trigger] new_heads[i] == self.target_cell(*moves, i),
            forall|i: int| 0 <= i < MAX_SNAKES ==> #[trigger] went_oob[i] == self.goes_out(*moves, i),
        ensures
            forall|i: int| 0 <= i < MAX_SNAKES ==> #[trigger] r[i] == self.eats(*moves, i),
    {
        let mut eats_food = [false, false, false, false, false, false, false, false];
        let mut i: usize = 0;
        while i < self.num_snakes as usize
            invariant
                self.wf(),
                i <= self.num_snakes,
                forall|j: int| 0 <= j < MAX_SNAKES ==> #[trigger] new_heads[j] == self.target_cell(*moves, j),
            forall|j: int| 0 <= j < MAX_SNAKES ==> #[trigger] went_oob[j] == self.goes_out(*moves, j),
                forall|j: int| 0 <= j < MAX_SNAKES ==> #[trigger] eats_food[j] == (j < i && self.eats(*moves, j)),
            decreases self.num_snakes - i,
        {
            if !self.snakes[i].alive || went_oob[i] {
                i += 1;
                continue;
            }
            proof {
                self.lemma_target_in_word(*moves, i as int);
                lemma_test_single(self.food, new_heads[i as int] as u128);
            }
            if self.food & (1u128 << new_heads[i]) != 0 {
                eats_food[i] = true;
            }
            i += 1;
        }
        eats_food
    }

    /// The target cell of a snake is a cell of the board (or cell 0).
    proof fn lemma_target_in_word(&self, moves: [Option<Direction>; MAX_SNAKES], i: int)
        requires
            self.wf(),
        ensures
            self.target_cell(moves, i) < self.width * self.height,
            self.target_cell(moves, i) < 128,
    {
        if self.has_move(moves, i) && !self.goes_out(moves, i) {
            let x = self.head_x(i) + dir_dx(moves[i]->0);
            let y = self.head_y(i) + dir_dy(moves[i]->0);
            lemma_cell_in_word(x, y, self.width as int, self.height as int);
            assert(cell_index(x, y, self.width as int) < 128);
            assert(self.target_cell(moves, i) == cell_index(x, y, self.width as int));
        }
        assert(self.width * self.height >= 1) by (nonlinear_arith)
            requires
                1 <= self.width,
                1 <= self.height,
        ;
    }

    /// The occupied cells after the move, as a bitboard.
    fn plan_bodies(&self, moves: &[Option<Direction>; MAX_SNAKES], new_heads: [u8; MAX_SNAKES], went_oob: [bool; MAX_SNAKES], eats_food: [bool; MAX_SNAKES], moving_tails: u128) -> (r: u128)
        requires
            self.wf(),
            bits(moving_tails) == self.moving_tails(),
            forall|i: int| 0 <= i < MAX_SNAKES ==> #[trigger] new_heads[i] == self.target_cell(*moves, i),
            forall|i: int| 0 <= i < MAX_SNAKES ==> #[trigger] went_oob[i] == self.goes_out(*moves, i),
            forall|i: int| 0 <= i < MAX_SNAKES ==> #[trigger] eats_food[i] == self.eats(*moves, i),
        ensures
            bits(r) == self.bodies_after_move(*moves),
    {
        let mut acc = self.all_bodies & !moving_tails;
        proof {
            lemma_bit_not(moving_tails);
            lemma_bit_and(self.all_bodies, !moving_tails);
        }
        let mut i: usize = 0;
        while i < self.num_snakes as usize
            invariant
                self.wf(),
                i <= self.num_snakes,
                bits(moving_tails) == self.moving_tails(),
                forall|j: int| 0 <= j < MAX_SNAKES ==> #[trigger] new_heads[j] == self.target_cell(*moves, j),
            forall|j: int| 0 <= j < MAX_SNAKES ==> #[trigger] went_oob[j] == self.goes_out(*moves, j),
            forall|j: int| 0 <= j < MAX_SNAKES ==> #[trigger] eats_food[j] == self.eats(*moves, j),
                forall|p: int|
                    #[trigger] bit(acc, p) == ((bits(self.all_bodies).contains(p) && !self.moving_tails().contains(p))
                        || (exists|j: int| 0 <= j < i && #[trigger] self.advances(*moves, j) && self.target_cell(*moves, j) == p)
                        || (exists|j: int| 0 <= j < i && #[trigger] self.eats(*moves, j) && self.snakes[j].seg(self.snakes[j].len - 1) == p)),
            decreases self.num_snakes - i,
        {
            let ghost prev = acc;
            let s = &self.snakes[i];
            if !s.alive || went_oob[i] {
                assert forall|p: int|
                    #[trigger] bit(acc, p) == ((bits(self.all_bodies).contains(p) && !self.moving_tails().contains(p))
                        || (exists|j: int| 0 <= j < i + 1 && #[trigger] self.advances(*moves, j) && self.target_cell(*moves, j) == p)
                        || (exists|j: int| 0 <= j < i + 1 && #[trigger] self.eats(*moves, j) && self.snakes[j].seg(self.snakes[j].len - 1) == p)) by {
                    assert(!self.advances(*moves, i as int));
                }
                i += 1;
                continue;
            }
            proof {
                self.lemma_target_in_word(*moves, i as int);
            }
            acc = acc | (1u128 << new_heads[i]);
            proof {
                lemma_bit_or(prev, 1u128 << new_heads[i as int]);
                lemma_bit_single(new_heads[i as int] as u128);
            }
            if eats_food[i] {
                let t = s.tail();
                assert(t < self.width * self.height);
                let ghost mid = acc;
                acc = acc | (1u128 << t);
                proof {
                    lemma_bit_or(mid, 1u128 << t);
                    lemma_bit_single(t as u128);
                }
            }
            assert forall|p: int|
                #[trigger] bit(acc, p) == ((bits(self.all_bodies).contains(p) && !self.moving_tails().contains(p))
                    || (exists|j: int| 0 <= j < i + 1 && #[trigger] self.advances(*moves, j) && self.target_cell(*moves, j) == p)
                    || (exists|j: int| 0 <= j < i + 1 && #[trigger] self.eats(*moves, j) && self.snakes[j].seg(self.snakes[j].len - 1) == p)) by {
                assert(self.advances(*moves, i as int));
            }
            i += 1;
        }
        assert forall|p: int| #[trigger] bits(acc).contains(p) == self.bodies_after_move(*moves).contains(p) by {
            if exists|j: int| #[trigger] self.advances(*moves, j) && self.target_cell(*moves, j) == p {
                let j = choose|j: int| #[trigger] self.advances(*moves, j) && self.target_cell(*moves, j) == p;
                assert(0 <= j < i);
            }
            if exists|j: int| #[trigger] self.eats(*moves, j) && self.snakes[j].seg(self.snakes[j].len - 1) == p {
                let j = choose|j: int| #[trigger] self.eats(*moves, j) && self.snakes[j].seg(self.snakes[j].len - 1) == p;
                assert(0 <= j < i);
            }
        }
        assert(bits(acc) =~= self.bodies_after_move(*moves));
        acc
    }
}

} // verus!

verus! {

impl SimState {
    /// The snakes after moving, before hazards, and the food they ate.
    fn move_snakes(&self, moves: &[Option<Direction>; MAX_SNAKES], new_heads: [u8; MAX_SNAKES], went_oob: [bool; MAX_SNAKES], eats_food: [bool; MAX_SNAKES]) -> (r: ([SnakeState; MAX_SNAKES], u128))
        requires
            self.wf(),
            self.turn_in_range(*moves),
            forall|i: int| 0 <= i < MAX_SNAKES ==> #[trigger] new_heads[i] == self.target_cell(*moves, i),
            forall|i: int| 0 <= i < MAX_SNAKES ==> #[trigger] went_oob[i] == self.goes_out(*moves, i),
            forall|i: int| 0 <= i < MAX_SNAKES ==> #[trigger] eats_food[i] == self.eats(*moves, i),
        ensures
            moved_as(*self, *moves, r.0, false),
            bits(r.1) == self.eaten(*moves),
    {
        let mut snakes = self.snakes;
        let mut food_eaten = 0u128;
        proof {
            lemma_bit_zero();
        }
        let mut i: usize = 0;
        while i < self.num_snakes as usize
            invariant
                self.wf(),
                self.turn_in_range(*moves),
                i <= self.num_snakes,
                forall|j: int| 0 <= j < MAX_SNAKES ==> #[trigger] new_heads[j] == self.target_cell(*moves, j),
                forall|j: int| 0 <= j < MAX_SNAKES ==> #[trigger] went_oob[j] == self.goes_out(*moves, j),
                forall|j: int| 0 <= j < MAX_SNAKES ==> #[trigger] eats_food[j] == self.eats(*moves, j),
                forall|j: int|
                    0 <= j < MAX_SNAKES ==> #[trigger] snakes[j] == (if j < i {
                        self.moved_snake(*moves, j)
                    } else {
                        self.snakes[j]
                    }),
                forall|p: int| #[trigger] bit(food_eaten, p) == exists|j: int| 0 <= j < i && #[trigger] self.eats(*moves, j) && self.target_cell(*moves, j) == p,
            decreases self.num_snakes - i,
        {
            if !snakes[i].alive || went_oob[i] {
                assert(!self.advances(*moves, i as int));
                assert forall|p: int| #[trigger] bit(food_eaten, p) == exists|j: int| 0 <= j < i + 1 && #[trigger] self.eats(*moves, j) && self.target_cell(*moves, j) == p by {
                    assert(!self.eats(*moves, i as int));
                }
                i += 1;
                continue;
            }
            assert(self.advances(*moves, i as int));
            let ate = eats_food[i];
            let new_head = new_heads[i];
            let mut s = snakes[i];
            s.push_head(new_head);
            s.health = s.health - 1;
            if ate {
                s.health = 100;
                proof {
                    self.lemma_target_in_word(*moves, i as int);
                    lemma_bit_or(food_eaten, 1u128 << new_head);
                    lemma_bit_single(new_head as u128);
                }
                food_eaten = food_eaten | (1u128 << new_head);
            } else {
                s.pop_tail();
            }
            assert(s.body =~= self.moved_snake(*moves, i as int).body);
            assert(s == self.moved_snake(*moves, i as int));
            snakes[i] = s;
            assert forall|p: int| #[trigger] bit(food_eaten, p) == exists|j: int| 0 <= j < i + 1 && #[trigger] self.eats(*moves, j) && self.target_cell(*moves, j) == p by {
                if ate {
                    if p == new_head {
                        assert(self.eats(*moves, i as int));
                    }
                } else {
                    assert(!self.eats(*moves, i as int));
                }
            }
            i += 1;
        }
        assert forall|j: int| 0 <= j < MAX_SNAKES implies #[trigger] snakes[j] == self.moved_snake(*moves, j) by {
            if j >= i {
                assert(!self.advances(*moves, j));
            }
        }
        assert forall|p: int| #[trigger] bits(food_eaten).contains(p) == self.eaten(*moves).contains(p) by {
            if exists|j: int| #[trigger] self.eats(*moves, j) && self.target_cell(*moves, j) == p {
                let j = choose|j: int| #[trigger] self.eats(*moves, j) && self.target_cell(*moves, j) == p;
                assert(0 <= j < i);
            }
        }
        assert(bits(food_eaten) =~= self.eaten(*moves));
        (snakes, food_eaten)
    }
}

} // verus!

verus! {

/// The snakes after the move, before hazards (`hazards_done == false`) or after.
pub open spec fn moved_as(st: SimState, moves: [Option<Direction>; MAX_SNAKES], snakes: [SnakeState; MAX_SNAKES], hazards_done: bool) -> bool {
    forall|i: int|
        0 <= i < MAX_SNAKES ==> #[trigger] snakes[i] == (if hazards_done {
            st.final_snake(moves, i)
        } else {
            st.moved_snake(moves, i)
        })
}

impl SimState {
    /// After the move, every segment of a live snake is a board cell.
    pub proof fn lemma_moved_cells(&self, moves: [Option<Direction>; MAX_SNAKES], i: int, k: int)
        requires
            self.wf(),
            0 <= i < MAX_SNAKES,
            self.snakes[i].alive,
            0 <= k < self.moved_len(moves, i),
        ensures
            self.moved_seg(moves, i, k) < self.width * self.height,
            self.moved_head_ptr(moves, i) < 128,
            self.moved_len(moves, i) >= 1,
            self.moved_snake(moves, i).seg(k) == self.moved_seg(moves, i, k),
            self.final_snake(moves, i).seg(k) == self.moved_seg(moves, i, k),
            self.moved_snake(moves, i).len == self.moved_len(moves, i),
            self.moved_snake(moves, i).head_ptr == self.moved_head_ptr(moves, i),
    {
        let s = self.snakes[i];
        if self.advances(moves, i) {
            self.lemma_target_in_word(moves, i);
            let hp2 = self.moved_head_ptr(moves, i) as int;
            let idx = (hp2 + k) % 128;
            if idx != hp2 {
                assert(k >= 1);
                assert(idx == (s.head_ptr + (k - 1)) % 128);
                assert(self.moved_seg(moves, i, k) == s.seg(k - 1));
                assert(s.seg(k - 1) < self.width * self.height);
            } else {
                assert(self.moved_seg(moves, i, k) == self.target_cell(moves, i));
            }
        } else {
            assert(self.moved_seg(moves, i, k) == s.seg(k));
            assert(s.seg(k) < self.width * self.height);
        }
    }

    /// In a turn without overflow, every health stays in range.
    pub proof fn lemma_final_health_range(&self, moves: [Option<Direction>; MAX_SNAKES], i: int)
        requires
            self.turn_in_range(moves),
        ensures
            i16::MIN <= self.moved_health(moves, i) <= i16::MAX,
            i16::MIN <= self.final_health(moves, i) <= i16::MAX,
    {
        if self.advances(moves, i) {
            assert(self.snakes[i].health > i16::MIN);
        }
        if self.in_hazard(moves, i) {
            assert(i16::MIN <= self.moved_health(moves, i) - self.hazard_damage <= i16::MAX);
        }
    }

    /// Applies hazard damage to the snakes whose head stands on a hazard.
    fn apply_hazards(&self, moves: &[Option<Direction>; MAX_SNAKES], moved: [SnakeState; MAX_SNAKES]) -> (r: [SnakeState; MAX_SNAKES])
        requires
            self.wf(),
            self.turn_in_range(*moves),
            moved_as(*self, *moves, moved, false),
        ensures
            moved_as(*self, *moves, r, true),
    {
        let mut snakes = moved;
        let mut i: usize = 0;
        while i < self.num_snakes as usize
            invariant
                self.wf(),
                self.turn_in_range(*moves),
                i <= self.num_snakes,
                moved_as(*self, *moves, moved, false),
                forall|j: int|
                    0 <= j < MAX_SNAKES ==> #[trigger] snakes[j] == (if j < i {
                        self.final_snake(*moves, j)
                    } else {
                        self.moved_snake(*moves, j)
                    }),
            decreases self.num_snakes - i,
        {
            let mut s = snakes[i];
            if !s.alive {
                assert(!self.in_hazard(*moves, i as int));
                assert(self.final_snake(*moves, i as int) == self.moved_snake(*moves, i as int));
                i += 1;
                continue;
            }
            proof {
                self.lemma_moved_cells(*moves, i as int, 0);
            }
            let head = s.head();
            assert(head == self.moved_seg(*moves, i as int, 0));
            proof {
                lemma_test_single(self.hazards, head as u128);
            }
            if self.hazards & (1u128 << head) != 0 {
                assert(self.in_hazard(*moves, i as int));
                s.health = s.health - self.hazard_damage;
            } else {
                assert(!self.in_hazard(*moves, i as int));
            }
            assert(s == self.final_snake(*moves, i as int));
            snakes[i] = s;
            i += 1;
        }
        assert forall|j: int| 0 <= j < MAX_SNAKES implies #[trigger] snakes[j] == self.final_snake(*moves, j) by {
            if j >= i {
                assert(!self.in_hazard(*moves, j));
                assert(self.final_snake(*moves, j) == self.moved_snake(*moves, j));
            }
        }
        snakes
    }

    /// Whether `head` is a segment of a live snake other than a moving tail and other
    /// than the old head of snake `i`.
    fn segment_hit(&self, i: usize, head: u8) -> (r: bool)
        requires
            self.wf(),
        ensures
            r == exists|j: int, k: int|
                0 <= j < self.num_snakes && self.snakes[j].alive && 0 <= k < self.snakes[j].len && !(k
                    == self.snakes[j].len - 1 && !self.snakes[j].stacked()) && #[trigger] self.snakes[j].seg(k)
                    == head && !(j == i && k == 0),
    {
        let mut in_body = false;
        let mut j: usize = 0;
        while j < self.num_snakes as usize && !in_body
            invariant
                self.wf(),
                j <= self.num_snakes,
                in_body ==> exists|j2: int, k: int|
                    0 <= j2 < self.num_snakes && self.snakes[j2].alive && 0 <= k < self.snakes[j2].len && !(k
                        == self.snakes[j2].len - 1 && !self.snakes[j2].stacked()) && #[trigger] self.snakes[j2].seg(k)
                        == head && !(j2 == i && k == 0),
                !in_body ==> forall|j2: int, k: int|
                    0 <= j2 < j && self.snakes[j2].alive && 0 <= k < self.snakes[j2].len && !(k
                        == self.snakes[j2].len - 1 && !self.snakes[j2].stacked()) && !(j2 == i && k == 0) ==> #[trigger] self.snakes[j2].seg(k)
                        != head,
            decreases self.num_snakes - j,
        {
            let sj = &self.snakes[j];
            if sj.alive {
                let stacked = sj.tail_is_stacked();
                let mut k: usize = 0;
                while k < sj.len as usize && !in_body
                    invariant
                        self.wf(),
                        j < self.num_snakes,
                        *sj == self.snakes[j as int],
                        sj.alive,
                        stacked == sj.stacked(),
                        k <= sj.len,
                        in_body ==> exists|j2: int, k2: int|
                            0 <= j2 < self.num_snakes && self.snakes[j2].alive && 0 <= k2 < self.snakes[j2].len && !(k2
                                == self.snakes[j2].len - 1 && !self.snakes[j2].stacked()) && #[trigger] self.snakes[j2].seg(k2)
                                == head && !(j2 == i && k2 == 0),
                        !in_body ==> forall|j2: int, k2: int|
                            0 <= j2 < j && self.snakes[j2].alive && 0 <= k2 < self.snakes[j2].len && !(k2
                                == self.snakes[j2].len - 1 && !self.snakes[j2].stacked()) && !(j2 == i && k2 == 0) ==> #[trigger] self.snakes[j2].seg(k2)
                                != head,
                        !in_body ==> forall|k2: int|
                            0 <= k2 < k && !(k2 == sj.len - 1 && !sj.stacked()) && !(j == i && k2 == 0) ==> #[trigger] sj.seg(k2) != head,
                    decreases sj.len - k,
                {
                    let idx = sj.head_ptr as usize + k;
                    proof {
                        lemma_mask_is_mod(idx);
                    }
                    let seg = sj.body[idx & (BODY_CAP - 1)];
                    assert(seg == sj.seg(k as int));
                    if k == sj.len as usize - 1 && !stacked {
                        k += 1;
                        continue;
                    }
                    if seg == head && !(j == i && k == 0) {
                        in_body = true;
                    }
                    k += 1;
                }
                if !in_body {
                    assert forall|j2: int, k2: int|
                        0 <= j2 < j + 1 && self.snakes[j2].alive && 0 <= k2 < self.snakes[j2].len && !(k2
                            == self.snakes[j2].len - 1 && !self.snakes[j2].stacked()) && !(j2 == i && k2 == 0) implies #[trigger] self.snakes[j2].seg(k2)
                            != head by {
                        if j2 == j {
                            assert(sj.seg(k2) != head);
                        }
                    }
                }
            }
            j += 1;
        }
        in_body
    }

    /// The snakes that die on their own this turn.
    fn solo_eliminations(&self, moves: &[Option<Direction>; MAX_SNAKES], snakes: [SnakeState; MAX_SNAKES], went_oob: [bool; MAX_SNAKES], moving_tails: u128) -> (r: [bool; MAX_SNAKES])
        requires
            self.wf(),
            self.turn_in_range(*moves),
            moved_as(*self, *moves, snakes, true),
            forall|i: int| 0 <= i < MAX_SNAKES ==> #[trigger] went_oob[i] == self.goes_out(*moves, i),
            bits(moving_tails) == self.moving_tails(),
        ensures
            r@ == self.solo_deaths(*moves),
    {
        let mut eliminate: [bool; MAX_SNAKES] = [false, false, false, false, false, false, false, false];
        let others_body = self.all_bodies & !moving_tails;
        proof {
            lemma_bit_not(moving_tails);
            lemma_bit_and(self.all_bodies, !moving_tails);
        }
        let mut i: usize = 0;
        while i < self.num_snakes as usize
            invariant
                self.wf(),
                self.turn_in_range(*moves),
                moved_as(*self, *moves, snakes, true),
                forall|j: int| 0 <= j < MAX_SNAKES ==> #[trigger] went_oob[j] == self.goes_out(*moves, j),
                bits(moving_tails) == self.moving_tails(),
                forall|p: int| #[trigger] bit(others_body, p) == (bit(self.all_bodies, p) && !self.moving_tails().contains(p)),
                i <= self.num_snakes,
                forall|j: int| 0 <= j < MAX_SNAKES ==> #[trigger] eliminate[j] == (j < i && self.dies_alone(*moves, j)),
            decreases self.num_snakes - i,
        {
            let s = &snakes[i];
            proof {
                self.lemma_final_health_range(*moves, i as int);
            }
            if !s.alive {
                i += 1;
                continue;
            }
            if went_oob[i] || s.health <= 0 {
                eliminate[i] = true;
                i += 1;
                continue;
            }
            proof {
                self.lemma_moved_cells(*moves, i as int, 0);
            }
            let head = s.head();
            assert(head == self.moved_seg(*moves, i as int, 0));
            proof {
                lemma_test_single(others_body, head as u128);
            }
            if others_body & (1u128 << head) != 0 {
                let in_body = self.segment_hit(i, head);
                if in_body {
                    eliminate[i] = true;
                }
            }
            i += 1;
        }
        assert(eliminate@ =~= self.solo_deaths(*moves));
        eliminate
    }
}

} // verus!

verus! {

impl SimState {
    /// Head meetings only kill snakes that are alive.
    pub proof fn lemma_meetings_alive(&self, moves: [Option<Direction>; MAX_SNAKES], e: Seq<bool>, i: int, j: int)
        requires
            self.num_snakes <= MAX_SNAKES,
            e.len() == MAX_SNAKES,
            forall|x: int| 0 <= x < MAX_SNAKES && #[trigger] e[x] ==> self.snakes[x].alive,
        ensures
            self.meetings(moves, e, i, j).len() == MAX_SNAKES,
            forall|x: int|
                0 <= x < MAX_SNAKES && #[trigger] self.meetings(moves, e, i, j)[x] ==> self.snakes[x].alive,
        decreases self.num_snakes - i, self.num_snakes - j,
    {
        if i >= self.num_snakes || i < 0 {
        } else if j >= self.num_snakes {
            self.lemma_meetings_alive(moves, e, i + 1, i + 2);
        } else if j <= i {
            self.lemma_meetings_alive(moves, e, i, i + 1);
        } else {
            let e2 = self.meet(moves, e, i, j);
            assert(e2.len() == MAX_SNAKES);
            assert forall|x: int| 0 <= x < MAX_SNAKES && #[trigger] e2[x] implies self.snakes[x].alive by {
                if !e[x] {
                    assert(x == i || x == j);
                }
            }
            self.lemma_meetings_alive(moves, e2, i, j + 1);
        }
    }

    /// Only live snakes of the state die, and only among the first `num_snakes`.
    pub proof fn lemma_deaths_alive(&self, moves: [Option<Direction>; MAX_SNAKES])
        requires
            self.num_snakes <= MAX_SNAKES,
        ensures
            self.deaths(moves).len() == MAX_SNAKES,
            forall|x: int| 0 <= x < MAX_SNAKES && #[trigger] self.deaths(moves)[x] ==> self.snakes[x].alive,
    {
        self.lemma_meetings_alive(moves, self.solo_deaths(moves), 0, 1);
    }

    /// Settles the head meetings in order.
    fn settle_meetings(&self, moves: &[Option<Direction>; MAX_SNAKES], snakes: [SnakeState; MAX_SNAKES], solo: [bool; MAX_SNAKES]) -> (r: [bool; MAX_SNAKES])
        requires
            self.wf(),
            moved_as(*self, *moves, snakes, true),
        ensures
            r@ == self.meetings(*moves, solo@, 0, 1),
    {
        let mut eliminate = solo;
        let n = self.num_snakes as usize;
        let mut i: usize = 0;
        while i < n
            invariant
                self.wf(),
                moved_as(*self, *moves, snakes, true),
                n == self.num_snakes,
                i <= n,
                self.meetings(*moves, eliminate@, i as int, i + 1) == self.meetings(*moves, solo@, 0, 1),
            decreases n - i,
        {
            let mut j: usize = i + 1;
            while j < n
                invariant
                    self.wf(),
                    moved_as(*self, *moves, snakes, true),
                    n == self.num_snakes,
                    i < n,
                    i < j <= n,
                    self.meetings(*moves, eliminate@, i as int, j as int) == self.meetings(*moves, solo@, 0, 1),
                decreases n - j,
            {
                let ghost before = eliminate@;
                if !snakes[i].alive || !snakes[j].alive {
                    j += 1;
                    continue;
                }
                if eliminate[i] || eliminate[j] {
                    j += 1;
                    continue;
                }
                proof {
                    self.lemma_moved_cells(*moves, i as int, 0);
                    self.lemma_moved_cells(*moves, j as int, 0);
                }
                let hi = snakes[i].head();
                let hj = snakes[j].head();
                assert(hi == self.moved_seg(*moves, i as int, 0));
                assert(hj == self.moved_seg(*moves, j as int, 0));
                if hi == hj {
                    if snakes[i].len > snakes[j].len {
                        eliminate[j] = true;
                    } else if snakes[j].len > snakes[i].len {
                        eliminate[i] = true;
                    } else {
                        eliminate[i] = true;
                        eliminate[j] = true;
                    }
                }
                assert(eliminate@ =~= self.meet(*moves, before, i as int, j as int));
                j += 1;
            }
            i += 1;
        }
        eliminate
    }

    /// Removes the cells of the dead snakes and marks them dead.
    fn clear_dead(&self, moves: &[Option<Direction>; MAX_SNAKES], snakes: [SnakeState; MAX_SNAKES], bodies: u128, eliminate: [bool; MAX_SNAKES]) -> (r: ([SnakeState; MAX_SNAKES], u128))
        requires
            self.wf(),
            moved_as(*self, *moves, snakes, true),
            bits(bodies) == self.bodies_after_move(*moves),
            eliminate@ == self.deaths(*moves),
        ensures
            forall|i: int|
                0 <= i < MAX_SNAKES ==> #[trigger] r.0[i] == (if eliminate[i] {
                    SnakeState { alive: false, ..snakes[i] }
                } else {
                    snakes[i]
                }),
            bits(r.1) == self.bodies_after_move(*moves).difference(self.dead_cells(*moves)),
    {
        proof {
            self.lemma_deaths_alive(*moves);
        }
        let mut out = snakes;
        let mut all = bodies;
        let mut i: usize = 0;
        while i < self.num_snakes as usize
            invariant
                self.wf(),
                moved_as(*self, *moves, snakes, true),
                bits(bodies) == self.bodies_after_move(*moves),
                eliminate@ == self.deaths(*moves),
                forall|x: int| 0 <= x < MAX_SNAKES && #[trigger] eliminate[x] ==> self.snakes[x].alive,
                i <= self.num_snakes,
                forall|j: int|
                    0 <= j < MAX_SNAKES ==> #[trigger] out[j] == (if j < i && eliminate[j] {
                        SnakeState { alive: false, ..snakes[j] }
                    } else {
                        snakes[j]
                    }),
                forall|p: int|
                    #[trigger] bit(all, p) == (bits(bodies).contains(p) && !exists|j: int, k: int|
                        0 <= j < i && eliminate[j] && 0 <= k < self.moved_len(*moves, j) && #[trigger] self.moved_seg(*moves, j, k) == p),
            decreases self.num_snakes - i,
        {
            if eliminate[i] {
                let s = snakes[i];
                let mut k: usize = 0;
                while k < s.len as usize
                    invariant
                        self.wf(),
                        moved_as(*self, *moves, snakes, true),
                        i < self.num_snakes,
                        s == snakes[i as int],
                        self.snakes[i as int].alive,
                        eliminate[i as int],
                        k <= s.len,
                        forall|p: int|
                            #[trigger] bit(all, p) == (bits(bodies).contains(p) && !(exists|j: int, k2: int|
                                0 <= j < i && eliminate[j] && 0 <= k2 < self.moved_len(*moves, j) && #[trigger] self.moved_seg(*moves, j, k2) == p) && !(exists|k2: int|
                                0 <= k2 < k && #[trigger] self.moved_seg(*moves, i as int, k2) == p)),
                    decreases s.len - k,
                {
                    let idx = s.head_ptr as usize + k;
                    proof {
                        lemma_mask_is_mod(idx);
                        self.lemma_moved_cells(*moves, i as int, k as int);
                    }
                    let seg = s.body[idx & (BODY_CAP - 1)];
                    assert(seg == self.moved_seg(*moves, i as int, k as int));
                    let ghost prev = all;
                    proof {
                        lemma_bit_single(seg as u128);
                        lemma_bit_not(1u128 << seg);
                        lemma_bit_and(prev, !(1u128 << seg));
                    }
                    all = all & !(1u128 << seg);
                    assert forall|p: int|
                        #[trigger] bit(all, p) == (bits(bodies).contains(p) && !(exists|j: int, k2: int|
                            0 <= j < i && eliminate[j] && 0 <= k2 < self.moved_len(*moves, j) && #[trigger] self.moved_seg(*moves, j, k2) == p) && !(exists|k2: int|
                            0 <= k2 < k + 1 && #[trigger] self.moved_seg(*moves, i as int, k2) == p)) by {
                        if p == seg {
                            assert(self.moved_seg(*moves, i as int, k as int) == p);
                        }
                    }
                    k += 1;
                }
                out[i] = SnakeState { alive: false, ..s };
                assert forall|p: int|
                    #[trigger] bit(all, p) == (bits(bodies).contains(p) && !exists|j: int, k2: int|
                        0 <= j < i + 1 && eliminate[j] && 0 <= k2 < self.moved_len(*moves, j) && #[trigger] self.moved_seg(*moves, j, k2) == p) by {
                    if exists|j: int, k2: int|
                        0 <= j < i + 1 && eliminate[j] && 0 <= k2 < self.moved_len(*moves, j) && #[trigger] self.moved_seg(*moves, j, k2) == p {
                        let (j, k2) = choose|j: int, k2: int|
                            0 <= j < i + 1 && eliminate[j] && 0 <= k2 < self.moved_len(*moves, j) && #[trigger] self.moved_seg(*moves, j, k2) == p;
                        if j == i {
                            assert(self.moved_seg(*moves, i as int, k2) == p);
                        }
                    }
                }
            } else {
                assert forall|p: int|
                    #[trigger] bit(all, p) == (bits(bodies).contains(p) && !exists|j: int, k2: int|
                        0 <= j < i + 1 && eliminate[j] && 0 <= k2 < self.moved_len(*moves, j) && #[trigger] self.moved_seg(*moves, j, k2) == p) by {
                    if exists|j: int, k2: int|
                        0 <= j < i + 1 && eliminate[j] && 0 <= k2 < self.moved_len(*moves, j) && #[trigger] self.moved_seg(*moves, j, k2) == p {
                        let (j, k2) = choose|j: int, k2: int|
                            0 <= j < i + 1 && eliminate[j] && 0 <= k2 < self.moved_len(*moves, j) && #[trigger] self.moved_seg(*moves, j, k2) == p;
                        assert(j != i);
                    }
                }
            }
            i += 1;
        }
        proof {
            self.lemma_deaths_beyond(*moves);
        }
        assert forall|p: int| #[trigger] bits(all).contains(p) == self.bodies_after_move(*moves).difference(self.dead_cells(*moves)).contains(p) by {
            assert(bits(all).contains(p) == bit(all, p));
        }
        assert(bits(all) =~= self.bodies_after_move(*moves).difference(self.dead_cells(*moves)));
        (out, all)
    }

    /// No snake past the first `num_snakes` dies.
    pub proof fn lemma_deaths_beyond(&self, moves: [Option<Direction>; MAX_SNAKES])
        requires
            self.num_snakes <= MAX_SNAKES,
        ensures
            forall|x: int| self.num_snakes <= x < MAX_SNAKES ==> !#[trigger] self.deaths(moves)[x],
    {
        self.lemma_meetings_range(moves, self.solo_deaths(moves), 0, 1);
    }

    proof fn lemma_meetings_range(&self, moves: [Option<Direction>; MAX_SNAKES], e: Seq<bool>, i: int, j: int)
        requires
            self.num_snakes <= MAX_SNAKES,
            e.len() == MAX_SNAKES,
            forall|x: int| self.num_snakes <= x < MAX_SNAKES ==> !#[trigger] e[x],
        ensures
            self.meetings(moves, e, i, j).len() == MAX_SNAKES,
            forall|x: int| self.num_snakes <= x < MAX_SNAKES ==> !#[trigger] self.meetings(moves, e, i, j)[x],
        decreases self.num_snakes - i, self.num_snakes - j,
    {
        if i >= self.num_snakes || i < 0 {
        } else if j >= self.num_snakes {
            self.lemma_meetings_range(moves, e, i + 1, i + 2);
        } else if j <= i {
            self.lemma_meetings_range(moves, e, i, i + 1);
        } else {
            let e2 = self.meet(moves, e, i, j);
            assert forall|x: int| self.num_snakes <= x < MAX_SNAKES implies !#[trigger] e2[x] by {
                assert(x != i && x != j);
            }
            self.lemma_meetings_range(moves, e2, i, j + 1);
        }
    }
}

} // verus!

verus! {

impl SimState {
    /// Plays one turn: every live snake with a move advances its head (a live snake
    /// without a move is sent to cell 0), snakes on food grow and regain full health,
    /// the others lose one health point, hazards hurt, and snakes that leave the
    /// board, starve, run into a body or lose a head-to-head meeting die.
    pub fn advance(&self, moves: &[Option<Direction>; MAX_SNAKES]) -> (r: SimState)
        requires
            self.wf(),
            self.turn_in_range(*moves),
        ensures
            r.wf(),
            r.width == self.width,
            r.height == self.height,
            r.masks == self.masks,
            r.hazards == self.hazards,
            r.hazard_damage == self.hazard_damage,
            r.num_snakes == self.num_snakes,
            r.my_idx == self.my_idx,
            r.turn == self.turn + 1,
            bits(r.food) == bits(self.food).difference(self.eaten(*moves)),
            bits(r.all_bodies) == self.bodies_after_move(*moves).difference(self.dead_cells(*moves)),
            forall|i: int|
                0 <= i < MAX_SNAKES ==> #[trigger] r.snakes[i] == (SnakeState {
                    alive: self.snakes[i].alive && !self.deaths(*moves)[i],
                    ..self.final_snake(*moves, i)
                }),
            self.cells_of_live() && (forall|i: int|
                0 <= i < self.num_snakes && #[trigger] self.snakes[i].alive ==> self.snakes[i].len < 128)
                ==> r.cells_of_live(),
    {
        let mut next = *self;
        next.turn = next.turn + 1;
        let (new_heads, went_oob) = self.plan_moves(moves);
        let eats_food = self.plan_eating(moves, new_heads, went_oob);
        let moving_tails = self.moving_tails_bb();
        let new_all_bodies = self.plan_bodies(moves, new_heads, went_oob, eats_food, moving_tails);
        let (moved, food_eaten) = self.move_snakes(moves, new_heads, went_oob, eats_food);
        proof {
            lemma_bit_not(food_eaten);
            lemma_bit_and(self.food, !food_eaten);
        }
        next.food = next.food & !food_eaten;
        assert(bits(next.food) =~= bits(self.food).difference(self.eaten(*moves)));
        let hurt = self.apply_hazards(moves, moved);
        let solo = self.solo_eliminations(moves, hurt, went_oob, moving_tails);
        let eliminate = self.settle_meetings(moves, hurt, solo);
        let (snakes, all) = self.clear_dead(moves, hurt, new_all_bodies, eliminate);
        next.snakes = snakes;
        next.all_bodies = all;
        proof {
            self.lemma_deaths_alive(*moves);
            assert forall|i: int|
                0 <= i < MAX_SNAKES implies #[trigger] next.snakes[i] == (SnakeState {
                    alive: self.snakes[i].alive && !self.deaths(*moves)[i],
                    ..self.final_snake(*moves, i)
                }) by {
                assert(hurt[i] == self.final_snake(*moves, i));
            }
            assert forall|i: int| 0 <= i < MAX_SNAKES implies #[trigger] next.snakes[i].head_ptr < 128 by {
                if self.advances(*moves, i) {
                } else {
                    assert(self.snakes[i].head_ptr < 128);
                }
            }
            assert forall|i: int|
                0 <= i < MAX_SNAKES && #[trigger] next.snakes[i].alive implies next.snakes[i].len >= 1 by {
                self.lemma_moved_cells(*moves, i, 0);
            }
            assert forall|i: int, k: int|
                0 <= i < MAX_SNAKES && next.snakes[i].alive && 0 <= k < next.snakes[i].len implies #[trigger] next.snakes[i].seg(k)
                    < next.width * next.height by {
                self.lemma_moved_cells(*moves, i, k);
            }
            if self.cells_of_live() && (forall|i: int|
                0 <= i < self.num_snakes && #[trigger] self.snakes[i].alive ==> self.snakes[i].len < 128) {
                assert(self.successor(*moves, next));
                self.lemma_dead_leave_board(*moves, next);
            }
        }
        next
    }
}

} // verus!

verus! {

/// The cell index of a protocol coordinate on a board of width `w`.
pub open spec fn api_cell(c: ApiCoord, w: int) -> int {
    c.y * w + c.x
}

/// The number of body segments a snake keeps in the compact state (at most 128).
pub open spec fn kept_len(s: ApiBattlesnake) -> int {
    if s.body.len() < 128 {
        s.body.len() as int
    } else {
        128
    }
}

/// The last two kept segments of a snake are the same point.
pub open spec fn api_stacked(s: ApiBattlesnake) -> bool {
    let n = kept_len(s);
    n >= 2 && s.body[n - 1].x == s.body[n - 2].x && s.body[n - 1].y == s.body[n - 2].y
}

/// The slot of my snake among the first `n`: the last one with my id, or 0.
pub open spec fn my_slot(gs: ApiGameState, n: int) -> int
    decreases n,
{
    if n <= 0 {
        0
    } else if gs.board.snakes[n - 1].id@ == gs.you.id@ {
        n - 1
    } else {
        my_slot(gs, n - 1)
    }
}

/// The hazard damage the rules give, 14 when they give none.
pub open spec fn hazard_damage_of(gs: ApiGameState) -> i32 {
    match gs.game.ruleset.settings {
        Some(s) => match s.hazard_damage_per_turn {
            Some(d) => d,
            None => 14,
        },
        None => 14,
    }
}

/// The snake in an unused slot.
pub open spec fn empty_snake(s: SnakeState) -> bool {
    s.health == 0 && s.head_ptr == 0 && s.len == 0 && !s.alive && s.id_hash == 0 && !s.is_my_snake
        && forall|k: int| 0 <= k < BODY_CAP ==> #[trigger] s.body[k] == 0
}

/// The compact snake for a snake of the protocol.
pub open spec fn snake_from_api(s: SnakeState, a: ApiBattlesnake, you: ApiBattlesnake, w: int) -> bool {
    &&& s.health == a.health as i16
    &&& s.head_ptr == 0
    &&& s.len == kept_len(a)
    &&& s.alive
    &&& s.id_hash == fnv_spec(vstd::utf8::encode_utf8(a.id@))
    &&& s.is_my_snake == (a.id@ == you.id@)
    &&& forall|k: int| 0 <= k < BODY_CAP ==> #[trigger] s.body[k] == (if k < kept_len(a) {
        api_cell(a.body[k], w) as u8
    } else {
        0u8
    })
}

/// The cells occupied at the start of the turn: every kept segment of the first
/// eight snakes, except a tail that is not stacked.
pub open spec fn api_bodies(gs: ApiGameState, n: int) -> Set<int> {
    Set::new(
        |p: int|
            exists|i: int, k: int|
                0 <= i < n && 0 <= k < kept_len(gs.board.snakes[i]) && (k != kept_len(gs.board.snakes[i]) - 1
                    || api_stacked(gs.board.snakes[i])) && #[trigger] api_cell(gs.board.snakes[i].body[k], gs.board.width as int) == p,
    )
}

/// The cells of a list of coordinates.
pub open spec fn api_cells(cs: Seq<ApiCoord>, w: int) -> Set<int> {
    Set::new(|p: int| exists|i: int| 0 <= i < cs.len() && #[trigger] api_cell(cs[i], w) == p)
}

impl SimState {
    /// The compact state of the first eight snakes of a game state.
    pub fn from_api(gs: &ApiGameState) -> (st: SimState)
        requires
            gs.well_formed(),
        ensures
            st.wf(),
            st.width == gs.board.width,
            st.height == gs.board.height,
            st.turn == #[verifier::truncate] (gs.turn as u16),
            st.hazard_damage == #[verifier::truncate] (hazard_damage_of(*gs) as i16),
            st.num_snakes == (if gs.board.snakes.len() < MAX_SNAKES {
                gs.board.snakes.len() as int
            } else {
                MAX_SNAKES as int
            }),
            st.my_idx == my_slot(*gs, st.num_snakes as int),
            forall|i: int|
                0 <= i < MAX_SNAKES ==> (if i < st.num_snakes {
                    snake_from_api(#[trigger] st.snakes[i], gs.board.snakes[i], gs.you, gs.board.width as int)
                } else {
                    empty_snake(st.snakes[i])
                }),
            bits(st.all_bodies) == api_bodies(*gs, st.num_snakes as int),
            bits(st.food) == api_cells(gs.board.food@, gs.board.width as int),
            bits(st.hazards) == api_cells(gs.board.hazards@, gs.board.width as int),
    {
        proof {
            assert(gs.board.width <= 128 && gs.board.height <= 128) by (nonlinear_arith)
                requires
                    1 <= gs.board.width,
                    1 <= gs.board.height,
                    gs.board.width * gs.board.height <= 128,
            ;
        }
        let w = gs.board.width as u8;
        let h = gs.board.height as u8;
        let masks = if (w as u32 * h as u32) <= 128 {
            BoardMasks::new(w as u32, h as u32)
        } else {
            BoardMasks::new(11, 11)
        };
        let hazard_damage: i32 = match &gs.game.ruleset.settings {
            Some(s) => match s.hazard_damage_per_turn {
                Some(d) => d,
                None => 14,
            },
            None => 14,
        };
        let empty = SnakeState {
            health: 0,
            body: [0u8; BODY_CAP],
            head_ptr: 0,
            len: 0,
            alive: false,
            id_hash: 0,
            is_my_snake: false,
        };
        assert(empty_snake(empty));
        let mut snakes: [SnakeState; MAX_SNAKES] = [empty, empty, empty, empty, empty, empty, empty, empty];
        let mut all_bodies: u128 = 0;
        let mut my_idx: u8 = 0;
        proof {
            lemma_bit_zero();
        }
        let ghost gw = gs.board.width as int;
        let mut idx: usize = 0;
        while idx < gs.board.snakes.len() && idx < MAX_SNAKES
            invariant
                gs.well_formed(),
                gw == gs.board.width,
                w as int == gs.board.width,
                idx <= MAX_SNAKES,
                idx <= gs.board.snakes.len(),
                my_idx == my_slot(*gs, idx as int),
                my_idx < MAX_SNAKES,
                forall|i: int|
                    0 <= i < MAX_SNAKES ==> (if i < idx {
                        snake_from_api(#[trigger] snakes[i], gs.board.snakes[i], gs.you, gw)
                    } else {
                        empty_snake(snakes[i])
                    }),
                bits(all_bodies) == api_bodies(*gs, idx as int),
            decreases MAX_SNAKES - idx,
        {
            let api_snake = &gs.board.snakes[idx];
            let is_me = api_snake.id == gs.you.id;
            let mut snake = SnakeState {
                health: api_snake.health as i16,
                body: [0u8; BODY_CAP],
                head_ptr: 0,
                len: 0,
                alive: true,
                id_hash: fnv_hash(api_snake.id.as_str()),
                is_my_snake: is_me,
            };
            let blen = if api_snake.body.len() < BODY_CAP {
                api_snake.body.len()
            } else {
                BODY_CAP
            };
            let stacked = blen >= 2 && api_snake.body[blen - 1].x == api_snake.body[blen - 2].x
                && api_snake.body[blen - 1].y == api_snake.body[blen - 2].y;
            assert(stacked == api_stacked(*api_snake));
            let ghost start = all_bodies;
            let mut i: usize = 0;
            while i < blen
                invariant
                    gs.well_formed(),
                    gw == gs.board.width,
                    w as int == gs.board.width,
                    idx < MAX_SNAKES,
                    idx < gs.board.snakes.len(),
                    *api_snake == gs.board.snakes[idx as int],
                    blen == kept_len(*api_snake),
                    stacked == api_stacked(*api_snake),
                    i <= blen,
                    snake.health == api_snake.health as i16,
                    snake.head_ptr == 0,
                    snake.len == 0,
                    snake.alive,
                    snake.id_hash == fnv_spec(vstd::utf8::encode_utf8(api_snake.id@)),
                    snake.is_my_snake == (api_snake.id@ == gs.you.id@),
                    forall|k: int| 0 <= k < BODY_CAP ==> #[trigger] snake.body[k] == (if k < i {
                        api_cell(api_snake.body[k], gw) as u8
                    } else {
                        0u8
                    }),
                    bits(start) == api_bodies(*gs, idx as int),
                    forall|p: int| #[trigger] bit(all_bodies, p) == (bits(start).contains(p) || exists|k: int|
                        0 <= k < i && (k != blen - 1 || stacked) && #[trigger] api_cell(api_snake.body[k], gw) == p),
                decreases blen - i,
            {
                let seg = api_snake.body[i];
                assert(seg.on_board(gw, gs.board.height as int));
                proof {
                    lemma_cell_in_word(seg.x as int, seg.y as int, gw, gs.board.height as int);
                }
                let pos = (seg.y as u8) * w + (seg.x as u8);
                assert(pos as int == api_cell(api_snake.body[i as int], gw));
                snake.body[i] = pos;
                let is_tail = i == blen - 1;
                if !is_tail || stacked {
                    let ghost prev = all_bodies;
                    proof {
                        lemma_bit_or(prev, 1u128 << pos);
                        lemma_bit_single(pos as u128);
                    }
                    all_bodies = all_bodies | (1u128 << pos);
                }
                i += 1;
            }
            snake.head_ptr = 0;
            snake.len = blen as u8;
            if is_me {
                my_idx = idx as u8;
            }
            assert(snake_from_api(snake, gs.board.snakes[idx as int], gs.you, gw));
            snakes[idx] = snake;
            idx += 1;
            assert forall|p: int| #[trigger] bits(all_bodies).contains(p) == api_bodies(*gs, idx as int).contains(p) by {
                assert(bits(all_bodies).contains(p) == bit(all_bodies, p));
                if api_bodies(*gs, idx as int).contains(p) {
                    let (i2, k2) = choose|i2: int, k2: int|
                        0 <= i2 < idx && 0 <= k2 < kept_len(gs.board.snakes[i2]) && (k2 != kept_len(gs.board.snakes[i2]) - 1
                            || api_stacked(gs.board.snakes[i2])) && #[trigger] api_cell(gs.board.snakes[i2].body[k2], gw) == p;
                    if i2 < idx - 1 {
                        assert(api_bodies(*gs, idx - 1).contains(p));
                    }
                }
            }
            assert(bits(all_bodies) =~= api_bodies(*gs, idx as int));
        }
        let mut food: u128 = 0;
        let mut fi: usize = 0;
        while fi < gs.board.food.len()
            invariant
                gs.well_formed(),
                gw == gs.board.width,
                w as int == gs.board.width,
                fi <= gs.board.food.len(),
                forall|p: int| #[trigger] bit(food, p) == exists|k: int| 0 <= k < fi && #[trigger] api_cell(gs.board.food[k], gw) == p,
            decreases gs.board.food.len() - fi,
        {
            let f = gs.board.food[fi];
            assert(f.on_board(gw, gs.board.height as int));
            proof {
                lemma_cell_in_word(f.x as int, f.y as int, gw, gs.board.height as int);
            }
            let pos = (f.y as u8) * w + (f.x as u8);
            assert(pos as int == api_cell(gs.board.food[fi as int], gw));
            let ghost prev = food;
            proof {
                lemma_bit_or(prev, 1u128 << pos);
                lemma_bit_single(pos as u128);
            }
            food = food | (1u128 << pos);
            fi += 1;
        }
        assert(bits(food) =~= api_cells(gs.board.food@, gw));
        let mut hazards: u128 = 0;
        let mut hi: usize = 0;
        while hi < gs.board.hazards.len()
            invariant
                gs.well_formed(),
                gw == gs.board.width,
                w as int == gs.board.width,
                hi <= gs.board.hazards.len(),
                forall|p: int| #[trigger] bit(hazards, p) == exists|k: int| 0 <= k < hi && #[trigger] api_cell(gs.board.hazards[k], gw) == p,
            decreases gs.board.hazards.len() - hi,
        {
            let hz = gs.board.hazards[hi];
            assert(hz.on_board(gw, gs.board.height as int));
            proof {
                lemma_cell_in_word(hz.x as int, hz.y as int, gw, gs.board.height as int);
            }
            let pos = (hz.y as u8) * w + (hz.x as u8);
            assert(pos as int == api_cell(gs.board.hazards[hi as int], gw));
            let ghost prev = hazards;
            proof {
                lemma_bit_or(prev, 1u128 << pos);
                lemma_bit_single(pos as u128);
            }
            hazards = hazards | (1u128 << pos);
            hi += 1;
        }
        assert(bits(hazards) =~= api_cells(gs.board.hazards@, gw));
        let state = SimState {
            width: w,
            height: h,
            turn: gs.turn as u16,
            food,
            hazards,
            hazard_damage: hazard_damage as i16,
            snakes,
            num_snakes: idx as u8,
            my_idx,
            all_bodies,
            masks,
        };
        proof {
            assert(state.masks.wf());
            assert(state.masks.width == state.width && state.masks.height == state.height);
            assert(state.width * state.height <= 128);
            assert(state.num_snakes <= MAX_SNAKES);
            assert forall|i: int| 0 <= i < MAX_SNAKES implies #[trigger] state.snakes[i].head_ptr < 128 by {
                if i < idx {
                    assert(snake_from_api(state.snakes[i], gs.board.snakes[i], gs.you, gw));
                } else {
                    assert(empty_snake(state.snakes[i]));
                }
            }
            assert forall|i: int| 0 <= i < MAX_SNAKES && #[trigger] state.snakes[i].alive implies state.snakes[i].len >= 1 by {
                if i < idx {
                    assert(snake_from_api(state.snakes[i], gs.board.snakes[i], gs.you, gw));
                    assert(gs.board.snakes[i].body.len() >= 1);
                } else {
                    assert(empty_snake(state.snakes[i]));
                }
            }
            assert forall|i: int, k: int|
                0 <= i < MAX_SNAKES && state.snakes[i].alive && 0 <= k < state.snakes[i].len implies #[trigger] state.snakes[i].seg(k)
                    < state.width * state.height by {
                if i >= idx {
                    assert(empty_snake(state.snakes[i]));
                }
                assert(snake_from_api(state.snakes[i], gs.board.snakes[i], gs.you, gw));
                assert(state.snakes[i].seg(k) == state.snakes[i].body[k]);
                assert(gs.board.snakes[i].body[k].on_board(gw, gs.board.height as int));
                lemma_cell_in_word(gs.board.snakes[i].body[k].x as int, gs.board.snakes[i].body[k].y as int, gw, gs.board.height as int);
            }
        }
        state
    }
}

} // verus!

verus! {

/// What a turn on a hazard can add to health: `-d` for negative damage.
pub open spec fn hazard_gain(d: int) -> int {
    if d < 0 {
        -d
    } else {
        0
    }
}

/// What a turn on a hazard can take from health: `d` for positive damage.
pub open spec fn hazard_loss(d: int) -> int {
    if d > 0 {
        d
    } else {
        0
    }
}

/// The highest health a snake of health `h` can reach in one turn before hazards:
/// its own or the 100 of a meal.
pub open spec fn health_ceiling(h: int) -> int {
    if h > 100 {
        h
    } else {
        100
    }
}

/// Health `h` under hazard damage `d` stays within `i16` for `k` more turns.
pub open spec fn health_calm(h: int, d: int, k: int) -> bool {
    &&& i16::MIN + 1 + hazard_loss(d) <= h
    &&& health_ceiling(h) + k * hazard_gain(d) <= i16::MAX
}

proof fn lemma_gain_bound(k: int, g: int)
    requires
        k >= 1,
        g >= 0,
    ensures
        k * g >= g,
{
    assert(k * g >= g) by (nonlinear_arith)
        requires
            k >= 1,
            g >= 0,
    ;
}

proof fn lemma_gain_step(k: int, g: int)
    ensures
        (k - 1) * g == k * g - g,
{
    assert((k - 1) * g == k * g - g) by (nonlinear_arith);
}

impl SimState {
    /// The state can be played for `k` more turns without leaving the ranges of its
    /// integer fields: the `u16` turn counter has room for `k` more turns, and every
    /// live snake's health `h` keeps the `i16` arithmetic of a turn in range. Each
    /// turn subtracts at most 1 plus the hazard damage `d` (so `h` must be at least
    /// `i16::MIN + 1 + max(d, 0)`), and raises health at most to `max(h, 100)` plus
    /// `-d` when hazards heal (so `max(h, 100) + k * max(-d, 0)` must fit in `i16`).
    pub open spec fn calm(&self, k: int) -> bool {
        &&& self.turn + k < u16::MAX
        &&& forall|i: int|
            0 <= i < MAX_SNAKES && self.snakes[i].alive ==> health_calm(
                #[trigger] self.snakes[i].health as int,
                self.hazard_damage as int,
                k,
            )
    }


    /// Head meetings only add deaths.
    pub proof fn lemma_meetings_superset(&self, moves: [Option<Direction>; MAX_SNAKES], e: Seq<bool>, i: int, j: int)
        requires
            self.num_snakes <= MAX_SNAKES,
            e.len() == MAX_SNAKES,
        ensures
            forall|x: int| 0 <= x < MAX_SNAKES && #[trigger] e[x] ==> self.meetings(moves, e, i, j)[x],
        decreases self.num_snakes - i, self.num_snakes - j,
    {
        if i >= self.num_snakes || i < 0 {
        } else if j >= self.num_snakes {
            self.lemma_meetings_superset(moves, e, i + 1, i + 2);
        } else if j <= i {
            self.lemma_meetings_superset(moves, e, i, i + 1);
        } else {
            let e2 = self.meet(moves, e, i, j);
            self.lemma_meetings_superset(moves, e2, i, j + 1);
            assert forall|x: int| 0 <= x < MAX_SNAKES && #[trigger] e[x] implies self.meetings(moves, e, i, j)[x] by {
                assert(e2[x]);
            }
        }
    }

    /// Whether the state is calm for `k` more turns.
    pub fn calm_for(&self, k: u16) -> (b: bool)
        ensures
            b == self.calm(k as int),
    {
        if self.turn as u32 + k as u32 >= 65535 {
            return false;
        }
        let d: i64 = self.hazard_damage as i64;
        let gain: i64 = if d < 0 { -d } else { 0 };
        let loss: i64 = if d > 0 { d } else { 0 };
        assert(0 <= k * gain <= 65535 * 32768) by (nonlinear_arith)
            requires
                0 <= gain <= 32768,
                0 <= k <= 65535,
        ;
        let kg: i64 = k as i64 * gain;
        let mut i: usize = 0;
        while i < MAX_SNAKES
            invariant
                i <= MAX_SNAKES,
                d == self.hazard_damage,
                gain == hazard_gain(d as int),
                loss == hazard_loss(d as int),
                kg == k * hazard_gain(d as int),
                0 <= kg <= 65535 * 32768,
                forall|j: int|
                    0 <= j < i && self.snakes[j].alive ==> health_calm(
                        #[trigger] self.snakes[j].health as int,
                        d as int,
                        k as int,
                    ),
            decreases MAX_SNAKES - i,
        {
            if self.snakes[i].alive {
                let h: i64 = self.snakes[i].health as i64;
                let ceiling: i64 = if h > 100 { h } else { 100 };
                if h < -32767 + loss || ceiling + kg > 32767 {
                    return false;
                }
            }
            i += 1;
        }
        true
    }

    /// A calm state with turns left can play any moves.
    pub proof fn lemma_calm_in_range(&self, moves: [Option<Direction>; MAX_SNAKES], k: int)
        requires
            self.num_snakes <= MAX_SNAKES,
            self.calm(k),
            k >= 1,
        ensures
            self.turn_in_range(moves),
    {
        let d = self.hazard_damage as int;
        lemma_gain_bound(k, hazard_gain(d));
        assert forall|i: int| #[trigger] self.advances(moves, i) implies self.snakes[i].health > i16::MIN by {
            assert(health_calm(self.snakes[i].health as int, d, k));
        }
        assert forall|i: int| #[trigger] self.in_hazard(moves, i) implies i16::MIN <= self.moved_health(moves, i)
            - self.hazard_damage <= i16::MAX by {
            assert(health_calm(self.snakes[i].health as int, d, k));
        }
    }

    /// After a turn of a calm state, a live snake keeps health that is calm for one
    /// turn less, and those among the first `num_snakes` have positive health.
    pub proof fn lemma_survivor_health(&self, moves: [Option<Direction>; MAX_SNAKES], i: int, k: int)
        requires
            self.num_snakes <= MAX_SNAKES,
            self.calm(k),
            k >= 1,
            0 <= i < MAX_SNAKES,
            self.snakes[i].alive,
            !self.deaths(moves)[i],
        ensures
            health_calm(self.final_health(moves, i), self.hazard_damage as int, k - 1),
            i < self.num_snakes ==> 0 < self.final_health(moves, i),
    {
        let d = self.hazard_damage as int;
        let h = self.snakes[i].health as int;
        let f = self.final_health(moves, i);
        self.lemma_meetings_superset(moves, self.solo_deaths(moves), 0, 1);
        assert(health_calm(h, d, k));
        if i < self.num_snakes {
            assert(!self.solo_deaths(moves)[i]);
            assert(!self.dies_alone(moves, i));
        } else {
            assert(!self.advances(moves, i));
            assert(!self.in_hazard(moves, i));
        }
        assert(health_ceiling(f) <= health_ceiling(h) + hazard_gain(d));
        lemma_gain_step(k, hazard_gain(d));
    }
}

} // verus!

verus! {

impl SimState {
    /// `r` is the state that `advance` gives for `moves`.
    pub open spec fn successor(&self, moves: [Option<Direction>; MAX_SNAKES], r: SimState) -> bool {
        &&& r.wf()
        &&& r.width == self.width
        &&& r.height == self.height
        &&& r.masks == self.masks
        &&& r.hazards == self.hazards
        &&& r.hazard_damage == self.hazard_damage
        &&& r.num_snakes == self.num_snakes
        &&& r.my_idx == self.my_idx
        &&& r.turn == self.turn + 1
        &&& bits(r.food) == bits(self.food).difference(self.eaten(moves))
        &&& bits(r.all_bodies) == self.bodies_after_move(moves).difference(self.dead_cells(moves))
        &&& forall|i: int|
            0 <= i < MAX_SNAKES ==> #[trigger] r.snakes[i] == (SnakeState {
                alive: self.snakes[i].alive && !self.deaths(moves)[i],
                ..self.final_snake(moves, i)
            })
    }

    /// Whether my snake is in play and alive.
    pub open spec fn me_alive(&self) -> bool {
        self.my_idx < self.num_snakes && self.snakes[self.my_idx as int].alive
    }

    /// A calm state stays calm, with one turn less, after a turn.
    pub proof fn lemma_calm_step(&self, moves: [Option<Direction>; MAX_SNAKES], r: SimState, k: int)
        requires
            self.wf(),
            self.calm(k),
            k >= 1,
            self.successor(moves, r),
        ensures
            r.calm(k - 1),
    {
        assert forall|i: int| 0 <= i < MAX_SNAKES && r.snakes[i].alive implies health_calm(
            #[trigger] r.snakes[i].health as int,
            r.hazard_damage as int,
            k - 1,
        ) by {
            assert(r.snakes[i] == (SnakeState {
                alive: self.snakes[i].alive && !self.deaths(moves)[i],
                ..self.final_snake(moves, i)
            }));
            self.lemma_survivor_health(moves, i, k);
        }
    }
}

} // verus!

verus! {

/// What the opponent model weighs about one move of an enemy snake.
#[derive(Clone, Copy, Debug)]
pub struct MoveFeatures {
    /// The move.
    pub dir: Direction,
    /// The Manhattan distance from the new head to the nearest food, if there is food.
    pub nearest_food: Option<i32>,
    /// The new head lands on food.
    pub onto_food: bool,
    /// The Manhattan distance from the new head to my head.
    pub dist_to_me: i32,
    /// The number of safe board cells next to the new head.
    pub open_neighbors: i32,
    /// The move continues the snake's last move.
    pub keeps_direction: bool,
}

/// `r` is the Manhattan distance from `(x, y)` to the nearest cell of `food` on a
/// board of width `w`, or `None` when there is no food.
pub open spec fn nearest_food_is(food: u128, x: int, y: int, w: int, r: Option<i32>) -> bool {
    match r {
        None => bits(food) == Set::<int>::empty(),
        Some(m) => (exists|p: int| #[trigger] bit(food, p) && crate::types::manhattan_spec(x, y, p % w, p / w) == m)
            && forall|p: int| #[trigger] bit(food, p) ==> m <= crate::types::manhattan_spec(x, y, p % w, p / w),
    }
}

impl SimState {
    /// The neighbour of `(x, y)` in direction `k` of `Direction::ALL` is on the board
    /// and safe to enter.
    pub open spec fn open_at(&self, x: int, y: int, k: int) -> bool {
        let nx = x + dir_dx(dir_of_index(k));
        let ny = y + dir_dy(dir_of_index(k));
        in_board(nx, ny, self.width as int, self.height as int) && self.safe_cell(cell_index(nx, ny, self.width as int))
    }

    /// The number of safe neighbours of `(x, y)`.
    pub open spec fn open_count(&self, x: int, y: int) -> nat {
        crate::board::count_where(4, |k: int| self.open_at(x, y, k))
    }

    /// The valid moves of snake `idx` among the first `k` directions, in order.
    pub open spec fn valid_dirs(&self, idx: int, k: int) -> Seq<Direction>
        decreases k,
    {
        if k <= 0 {
            Seq::empty()
        } else {
            let prev = self.valid_dirs(idx, k - 1);
            if self.valid_move(idx, dir_of_index(k - 1)) {
                prev.push(dir_of_index(k - 1))
            } else {
                prev
            }
        }
    }

    /// A dead snake has no valid moves.
    pub proof fn lemma_no_valid_dirs(&self, idx: int, k: int)
        requires
            !self.snakes[idx].alive,
        ensures
            self.valid_dirs(idx, k).len() == 0,
        decreases k,
    {
        if k > 0 {
            self.lemma_no_valid_dirs(idx, k - 1);
        }
    }

    /// `f` describes move `f.dir` of snake `idx`.
    pub open spec fn features_of(&self, idx: int, f: MoveFeatures) -> bool {
        let w = self.width as int;
        let nx = self.head_x(idx) + dir_dx(f.dir);
        let ny = self.head_y(idx) + dir_dy(f.dir);
        let me = self.my_idx as int;
        &&& nearest_food_is(self.food, nx, ny, w, f.nearest_food)
        &&& f.onto_food == bit(self.food, cell_index(nx, ny, w))
        &&& f.dist_to_me == crate::types::manhattan_spec(nx, ny, self.head_x(me), self.head_y(me))
        &&& f.open_neighbors == self.open_count(nx, ny)
        &&& f.keeps_direction == (self.snakes[idx].len >= 2 && move_between(
            self.snakes[idx].seg(1) as int,
            self.snakes[idx].seg(0) as int,
            w,
        ) == Some(f.dir))
    }

    /// The Manhattan distance from `(x, y)` to the nearest food, if there is food.
    pub fn nearest_food_distance(&self, x: i32, y: i32) -> (r: Option<i32>)
        requires
            self.width > 0,
            0 <= x <= 300,
            0 <= y <= 300,
        ensures
            nearest_food_is(self.food, x as int, y as int, self.width as int, r),
            r matches Some(m) ==> 0 <= m <= 600,
    {
        let ghost w = self.width as int;
        let food = crate::bitboard::Bitboard(self.food);
        let mut best: Option<i32> = None;
        let mut p: u32 = 0;
        while p < 128
            invariant
                self.width > 0,
                w == self.width,
                food.0 == self.food,
                0 <= x <= 300,
                0 <= y <= 300,
                p <= 128,
                best is None ==> forall|q: int| 0 <= q < p ==> !#[trigger] bit(self.food, q),
                best matches Some(m) ==> 0 <= m <= 600 && (exists|q: int|
                    0 <= q < p && #[trigger] bit(self.food, q) && crate::types::manhattan_spec(x as int, y as int, q % w, q / w) == m)
                    && forall|q: int|
                    0 <= q < p && #[trigger] bit(self.food, q) ==> m <= crate::types::manhattan_spec(
                        x as int,
                        y as int,
                        q % w,
                        q / w,
                    ),
            decreases 128 - p,
        {
            if food.test_idx(p) {
                let fx = (p % self.width as u32) as i32;
                let fy = (p / self.width as u32) as i32;
                let ax: i32 = if x >= fx { x - fx } else { fx - x };
                let ay: i32 = if y >= fy { y - fy } else { fy - y };
                let d = ax + ay;
                assert(d == crate::types::manhattan_spec(x as int, y as int, p as int % w, p as int / w));
                match best {
                    None => {
                        best = Some(d);
                    },
                    Some(m) => {
                        if d < m {
                            best = Some(d);
                        }
                    },
                }
            }
            p += 1;
        }
        proof {
            if best is None {
                assert(bits(self.food) =~= Set::<int>::empty());
            }
        }
        best
    }

    /// The valid moves of enemy snake `snake_idx`, in the order of `Direction::ALL`,
    /// each with what the opponent model weighs about it.
    pub fn enemy_move_features(&self, snake_idx: usize) -> (r: Vec<MoveFeatures>)
        requires
            self.wf(),
            snake_idx < MAX_SNAKES,
        ensures
            r.len() == self.valid_dirs(snake_idx as int, 4).len(),
            forall|j: int|
                0 <= j < r.len() ==> #[trigger] r@[j].dir == self.valid_dirs(snake_idx as int, 4)[j]
                    && self.features_of(snake_idx as int, r@[j]),
    {
        let ghost idx = snake_idx as int;
        let mut r: Vec<MoveFeatures> = Vec::new();
        let s = &self.snakes[snake_idx];
        if !s.alive {
            proof {
                self.lemma_no_valid_dirs(idx, 4);
            }
            return r;
        }
        let valid = self.get_valid_moves(snake_idx);
        let my = self.my_snake();
        let my_head = my.head();
        let my_hx = (my_head % self.width) as i32;
        let my_hy = (my_head / self.width) as i32;
        let head = s.head();
        let hx = (head % self.width) as i32;
        let hy = (head / self.width) as i32;
        let cur = s.current_direction(self.width);
        let moving_tails = self.moving_tails_bb();
        let safe = !self.all_bodies | moving_tails;
        proof {
            lemma_bit_not(self.all_bodies);
            lemma_bit_or(!self.all_bodies, moving_tails);
        }
        let mut k: usize = 0;
        while k < 4
            invariant
                self.wf(),
                snake_idx < MAX_SNAKES,
                idx == snake_idx,
                k <= 4,
                forall|d: int|
                    0 <= d < 4 ==> #[trigger] valid[d] == (if self.valid_move(idx, dir_of_index(d)) {
                        Some(dir_of_index(d))
                    } else {
                        None
                    }),
                my_hx == self.head_x(self.my_idx as int),
                my_hy == self.head_y(self.my_idx as int),
                hx == self.head_x(idx),
                hy == self.head_y(idx),
                0 <= my_hx <= 255,
                0 <= my_hy <= 255,
                0 <= hx <= 255,
                0 <= hy <= 255,
                cur == (if self.snakes[idx].len < 2 {
                    None
                } else {
                    move_between(self.snakes[idx].seg(1) as int, self.snakes[idx].seg(0) as int, self.width as int)
                }),
                forall|p: int| #[trigger] bit(safe, p) == (0 <= p < 128 && self.safe_cell(p)),
                r.len() == self.valid_dirs(idx, k as int).len(),
                forall|j: int|
                    0 <= j < r.len() ==> #[trigger] r@[j].dir == self.valid_dirs(idx, k as int)[j]
                        && self.features_of(idx, r@[j]),
            decreases 4 - k,
        {
            match valid[k] {
                Some(dir) => {
                    let nx = hx + dir.dx();
                    let ny = hy + dir.dy();
                    proof {
                        assert(self.valid_move(idx, dir_of_index(k as int)));
                        lemma_cell_in_word(nx as int, ny as int, self.width as int, self.height as int);
                    }
                    let npos = (ny as u8) * self.width + (nx as u8);
                    let nearest_food = self.nearest_food_distance(nx, ny);
                    let onto_food = crate::bitboard::Bitboard(self.food).test_idx(npos as u32);
                    let ax: i32 = if nx >= my_hx { nx - my_hx } else { my_hx - nx };
                    let ay: i32 = if ny >= my_hy { ny - my_hy } else { my_hy - ny };
                    let mut open_neighbors: i32 = 0;
                    let mut k2: usize = 0;
                    while k2 < 4
                        invariant
                            k2 <= 4,
                            0 <= nx < self.width,
                            0 <= ny < self.height,
                            self.wf(),
                            forall|p: int| #[trigger] bit(safe, p) == (0 <= p < 128 && self.safe_cell(p)),
                            open_neighbors == crate::board::count_where(k2 as int, |j: int| self.open_at(nx as int, ny as int, j)),
                            open_neighbors <= k2,
                        decreases 4 - k2,
                    {
                        let d2 = Direction::from_index(k2);
                        let nnx = nx + d2.dx();
                        let nny = ny + d2.dy();
                        if nnx >= 0 && nnx < self.width as i32 && nny >= 0 && nny < self.height as i32 {
                            proof {
                                lemma_cell_in_word(nnx as int, nny as int, self.width as int, self.height as int);
                            }
                            let nnpos = (nny as u8) * self.width + (nnx as u8);
                            proof {
                                lemma_test_single(safe, nnpos as u128);
                            }
                            if safe & (1u128 << nnpos) != 0 {
                                open_neighbors += 1;
                            }
                        }
                        k2 += 1;
                    }
                    let keeps_direction = match cur {
                        Some(c) => c == dir,
                        None => false,
                    };
                    let f = MoveFeatures {
                        dir,
                        nearest_food,
                        onto_food,
                        dist_to_me: ax + ay,
                        open_neighbors,
                        keeps_direction,
                    };
                    let ghost before = r@;
                    r.push(f);
                    proof {
                        assert(self.valid_move(idx, dir_of_index(k as int)));
                        assert forall|j: int|
                            0 <= j < r.len() implies #[trigger] r@[j].dir == self.valid_dirs(idx, k + 1)[j]
                                && self.features_of(idx, r@[j]) by {
                            if j < before.len() {
                                assert(r@[j] == before[j]);
                            }
                        }
                    }
                },
                None => {},
            }
            k += 1;
        }
        r
    }
}

} // verus!

verus! {

impl SimState {
    /// Snakes `a` and `b` are in play, alive, and given moves that take both heads
    /// to the same cell, where no other live snake's head goes.
    pub open spec fn meet_alone(&self, moves: [Option<Direction>; MAX_SNAKES], a: int, b: int) -> bool {
        &&& 0 <= a < self.num_snakes
        &&& 0 <= b < self.num_snakes
        &&& a != b
        &&& self.snakes[a].alive
        &&& self.snakes[b].alive
        &&& self.moved_seg(moves, a, 0) == self.moved_seg(moves, b, 0)
        &&& forall|x: int|
            0 <= x < self.num_snakes && x != a && x != b && #[trigger] self.snakes[x].alive ==> self.moved_seg(
                moves,
                x,
                0,
            ) != self.moved_seg(moves, a, 0)
    }

    /// Head meetings spare snake `a` when every live snake still standing whose head
    /// meets `a`'s is shorter than `a`.
    proof fn lemma_meetings_spare(&self, moves: [Option<Direction>; MAX_SNAKES], e: Seq<bool>, i: int, j: int, a: int)
        requires
            self.num_snakes <= MAX_SNAKES,
            e.len() == MAX_SNAKES,
            0 <= a < MAX_SNAKES,
            !e[a],
            forall|x: int|
                0 <= x < self.num_snakes && x != a && self.snakes[x].alive && !#[trigger] e[x] && self.moved_seg(
                    moves,
                    x,
                    0,
                ) == self.moved_seg(moves, a, 0) ==> self.moved_len(moves, x) < self.moved_len(moves, a),
        ensures
            !self.meetings(moves, e, i, j)[a],
        decreases self.num_snakes - i, self.num_snakes - j,
    {
        if i >= self.num_snakes || i < 0 {
        } else if j >= self.num_snakes {
            self.lemma_meetings_spare(moves, e, i + 1, i + 2, a);
        } else if j <= i {
            self.lemma_meetings_spare(moves, e, i, i + 1, a);
        } else {
            let e2 = self.meet(moves, e, i, j);
            assert(!e2[a]);
            assert forall|x: int|
                0 <= x < self.num_snakes && x != a && self.snakes[x].alive && !#[trigger] e2[x] && self.moved_seg(
                    moves,
                    x,
                    0,
                ) == self.moved_seg(moves, a, 0) implies self.moved_len(moves, x) < self.moved_len(moves, a) by {
                assert(!e[x]);
            }
            self.lemma_meetings_spare(moves, e2, i, j + 1, a);
        }
    }

    /// A meeting of `a` and `b` alone, not yet settled at pair `(i, j)`, kills the
    /// shorter of the two, and both at equal length.
    proof fn lemma_meetings_pair(
        &self,
        moves: [Option<Direction>; MAX_SNAKES],
        e: Seq<bool>,
        i: int,
        j: int,
        a: int,
        b: int,
    )
        requires
            self.num_snakes <= MAX_SNAKES,
            e.len() == MAX_SNAKES,
            a < b,
            self.meet_alone(moves, a, b),
            !e[a],
            !e[b],
            0 <= i,
            i < a || (i == a && j <= b),
        ensures
            self.moved_len(moves, a) >= self.moved_len(moves, b) ==> self.meetings(moves, e, i, j)[b],
            self.moved_len(moves, b) >= self.moved_len(moves, a) ==> self.meetings(moves, e, i, j)[a],
        decreases self.num_snakes - i, self.num_snakes - j,
    {
        if j >= self.num_snakes {
            self.lemma_meetings_pair(moves, e, i + 1, i + 2, a, b);
        } else if j <= i {
            self.lemma_meetings_pair(moves, e, i, i + 1, a, b);
        } else {
            let e2 = self.meet(moves, e, i, j);
            self.lemma_meetings_superset(moves, e2, i, j + 1);
            assert(self.meetings(moves, e, i, j) == self.meetings(moves, e2, i, j + 1));
            if i == a && j == b {
                if self.moved_len(moves, a) >= self.moved_len(moves, b) {
                    assert(e2[b]);
                }
                if self.moved_len(moves, b) >= self.moved_len(moves, a) {
                    assert(e2[a]);
                }
            } else {
                assert(!e2[a] && !e2[b]) by {
                    if i == a || i == b || j == a || j == b {
                        assert(self.moved_seg(moves, i, 0) != self.moved_seg(moves, j, 0) || !self.snakes[i].alive
                            || !self.snakes[j].alive);
                    }
                }
                self.lemma_meetings_pair(moves, e2, i, j + 1, a, b);
            }
        }
    }

    /// Head-to-head: when the heads of two snakes that do not die on their own meet
    /// alone, the shorter one dies and the longer one survives; at equal length
    /// both die.
    pub proof fn lemma_head_to_head(&self, moves: [Option<Direction>; MAX_SNAKES], a: int, b: int)
        requires
            self.wf(),
            self.meet_alone(moves, a, b),
            !self.dies_alone(moves, a),
            !self.dies_alone(moves, b),
        ensures
            self.moved_len(moves, a) > self.moved_len(moves, b) ==> self.deaths(moves)[b] && !self.deaths(moves)[a],
            self.moved_len(moves, a) == self.moved_len(moves, b) ==> self.deaths(moves)[a] && self.deaths(moves)[b],
    {
        let e = self.solo_deaths(moves);
        assert(!e[a] && !e[b]);
        if a < b {
            self.lemma_meetings_pair(moves, e, 0, 1, a, b);
        } else {
            assert(self.meet_alone(moves, b, a));
            self.lemma_meetings_pair(moves, e, 0, 1, b, a);
        }
        if self.moved_len(moves, a) > self.moved_len(moves, b) {
            assert forall|x: int|
                0 <= x < self.num_snakes && x != a && self.snakes[x].alive && !#[trigger] e[x] && self.moved_seg(
                    moves,
                    x,
                    0,
                ) == self.moved_seg(moves, a, 0) implies self.moved_len(moves, x) < self.moved_len(moves, a) by {
                if x != b {
                    assert(self.moved_seg(moves, x, 0) != self.moved_seg(moves, a, 0));
                }
            }
            self.lemma_meetings_spare(moves, e, 0, 1, a);
        }
    }

    /// The cell of the tail of snake `i`.
    pub open spec fn tail_cell(&self, i: int) -> u8 {
        self.snakes[i].seg(self.snakes[i].len - 1)
    }

    /// Segment `k` of snake `i` occupies its cell through the next move: every
    /// segment but a tail that moves away.
    pub open spec fn kept(&self, i: int, k: int) -> bool {
        0 <= k < self.snakes[i].len && !(k == self.snakes[i].len - 1 && !self.snakes[i].stacked())
    }

    /// `all_bodies` holds the cells of the live snakes in play: every segment that
    /// is kept, perhaps tails that move away, and no other cell.
    pub open spec fn occupancy_exact(&self) -> bool {
        &&& forall|p: int|
            #[trigger] bits(self.all_bodies).contains(p) ==> exists|i: int, k: int|
                0 <= i < self.num_snakes && self.snakes[i].alive && 0 <= k < self.snakes[i].len
                    && #[trigger] self.snakes[i].seg(k) == p
        &&& forall|i: int, k: int|
            0 <= i < self.num_snakes && self.snakes[i].alive && self.kept(i, k) ==> bits(self.all_bodies).contains(
                #[trigger] self.snakes[i].seg(k) as int,
            )
    }

    /// A tail that moves away shares its cell with no other segment of a live snake.
    pub open spec fn moving_tails_unshared(&self) -> bool {
        forall|i: int, j: int, l: int|
            0 <= i < self.num_snakes && self.snakes[i].alive && !self.snakes[i].stacked() && 0 <= j < self.num_snakes
                && self.snakes[j].alive && 0 <= l < self.snakes[j].len && !(j == i && l == self.snakes[i].len - 1)
                ==> #[trigger] self.snakes[j].seg(l) != #[trigger] self.tail_cell(i)
    }

    /// Head meetings never mark a snake that is dead or out of play.
    proof fn lemma_meetings_untouched(&self, moves: [Option<Direction>; MAX_SNAKES], e: Seq<bool>, i: int, j: int, x: int)
        requires
            self.num_snakes <= MAX_SNAKES,
            e.len() == MAX_SNAKES,
            0 <= x < MAX_SNAKES,
            !self.snakes[x].alive || x >= self.num_snakes,
            !e[x],
        ensures
            !self.meetings(moves, e, i, j)[x],
        decreases self.num_snakes - i, self.num_snakes - j,
    {
        if i >= self.num_snakes || i < 0 {
        } else if j >= self.num_snakes {
            self.lemma_meetings_untouched(moves, e, i + 1, i + 2, x);
        } else if j <= i {
            self.lemma_meetings_untouched(moves, e, i, i + 1, x);
        } else {
            self.lemma_meetings_untouched(moves, self.meet(moves, e, i, j), i, j + 1, x);
        }
    }

    /// A snake that advances takes its target as new head and keeps its old
    /// segments one place further back.
    proof fn lemma_advanced_segments(&self, moves: [Option<Direction>; MAX_SNAKES], i: int, k: int)
        requires
            self.advances(moves, i),
            self.snakes[i].head_ptr < 128,
            0 <= k < 128,
        ensures
            k == 0 ==> self.moved_seg(moves, i, k) == self.target_cell(moves, i),
            k >= 1 ==> self.moved_seg(moves, i, k) == self.snakes[i].seg(k - 1),
    {
        let hp2 = self.moved_head_ptr(moves, i) as int;
        let idx = (hp2 + k) % 128;
        if k >= 1 {
            assert(idx != hp2);
            assert(idx == (self.snakes[i].head_ptr + (k - 1)) % 128);
        }
    }

    /// A turn in which no snake dies keeps `all_bodies` exact: if before the turn
    /// it holds the kept segments of the live snakes and nothing else, and no tail
    /// that moves away shares its cell, then after the turn it again holds exactly
    /// the kept segments of the live snakes, and every live head.
    pub proof fn lemma_occupancy_kept(&self, moves: [Option<Direction>; MAX_SNAKES], r: SimState)
        requires
            self.wf(),
            self.successor(moves, r),
            self.occupancy_exact(),
            self.moving_tails_unshared(),
            forall|i: int| 0 <= i < self.num_snakes && #[trigger] self.snakes[i].alive ==> self.snakes[i].len < 128,
            forall|i: int| 0 <= i < self.num_snakes && #[trigger] self.snakes[i].alive ==> !self.deaths(moves)[i],
        ensures
            r.occupancy_exact(),
            forall|i: int|
                0 <= i < r.num_snakes && #[trigger] r.snakes[i].alive ==> bits(r.all_bodies).contains(
                    r.snakes[i].seg(0) as int,
                ),
    {
        let n = self.num_snakes as int;
        self.lemma_meetings_superset(moves, self.solo_deaths(moves), 0, 1);
        assert forall|x: int| 0 <= x < MAX_SNAKES implies !#[trigger] self.deaths(moves)[x] by {
            if x >= n || !self.snakes[x].alive {
                assert(!self.solo_deaths(moves)[x]);
                self.lemma_meetings_untouched(moves, self.solo_deaths(moves), 0, 1, x);
            }
        }
        assert(self.dead_cells(moves) =~= Set::<int>::empty());
        let after = bits(r.all_bodies);
        assert(after =~= self.bodies_after_move(moves));
        // the live snakes in play all advance, and keep their place
        assert forall|i: int| 0 <= i < n && #[trigger] self.snakes[i].alive implies self.advances(moves, i)
            && r.snakes[i].alive && r.snakes[i].len == self.moved_len(moves, i) by {
            assert(!self.solo_deaths(moves)[i]);
            assert(r.snakes[i] == (SnakeState {
                alive: self.snakes[i].alive && !self.deaths(moves)[i],
                ..self.final_snake(moves, i)
            }));
            self.lemma_moved_cells(moves, i, 0);
        }
        assert forall|i: int, k: int|
            0 <= i < n && self.snakes[i].alive && 0 <= k < self.moved_len(moves, i) implies #[trigger] r.snakes[i].seg(k)
            == self.moved_seg(moves, i, k) by {
            assert(r.snakes[i] == (SnakeState {
                alive: self.snakes[i].alive && !self.deaths(moves)[i],
                ..self.final_snake(moves, i)
            }));
            self.lemma_moved_cells(moves, i, k);
        }
        assert forall|i: int| 0 <= i < r.num_snakes && #[trigger] r.snakes[i].alive implies self.snakes[i].alive by {
            assert(r.snakes[i] == (SnakeState {
                alive: self.snakes[i].alive && !self.deaths(moves)[i],
                ..self.final_snake(moves, i)
            }));
        }
        // every occupied cell is a segment
        assert forall|p: int| #[trigger] after.contains(p) implies exists|i: int, k: int|
            0 <= i < r.num_snakes && r.snakes[i].alive && 0 <= k < r.snakes[i].len && #[trigger] r.snakes[i].seg(k)
                == p by {
            if bits(self.all_bodies).contains(p) && !self.moving_tails().contains(p) {
                let (i, k) = choose|i: int, k: int|
                    0 <= i < n && self.snakes[i].alive && 0 <= k < self.snakes[i].len && #[trigger] self.snakes[i].seg(k)
                        == p;
                assert(self.advances(moves, i));
                if k < self.snakes[i].len - 1 {
                    self.lemma_advanced_segments(moves, i, k + 1);
                    assert(r.snakes[i].seg(k + 1) == p);
                } else if self.snakes[i].stacked() {
                    self.lemma_advanced_segments(moves, i, k);
                    assert(r.snakes[i].seg(k) == p);
                } else {
                    assert(self.moving_tails().contains(p));
                }
            } else if exists|i: int| #[trigger] self.advances(moves, i) && self.target_cell(moves, i) == p {
                let i = choose|i: int| #[trigger] self.advances(moves, i) && self.target_cell(moves, i) == p;
                self.lemma_advanced_segments(moves, i, 0);
                assert(r.snakes[i].seg(0) == p);
            } else {
                let i = choose|i: int| #[trigger] self.eats(moves, i) && self.snakes[i].seg(self.snakes[i].len - 1) == p;
                let l = self.snakes[i].len as int;
                self.lemma_advanced_segments(moves, i, l);
                assert(r.snakes[i].seg(l) == p);
            }
        }
        // every kept segment, and every head, is occupied
        assert forall|j: int, l: int|
            0 <= j < r.num_snakes && r.snakes[j].alive && (l == 0 || r.kept(j, l)) implies after.contains(
                #[trigger] r.snakes[j].seg(l) as int,
            ) by {
            assert(self.advances(moves, j));
            let len = self.snakes[j].len as int;
            if l == 0 {
                self.lemma_advanced_segments(moves, j, 0);
            } else {
                self.lemma_advanced_segments(moves, j, l);
                let p = self.snakes[j].seg(l - 1) as int;
                if l - 1 < len - 1 {
                    assert(self.kept(j, l - 1));
                    assert(bits(self.all_bodies).contains(p));
                    if self.moving_tails().contains(p) {
                        let i = choose|i: int|
                            0 <= i < n && #[trigger] self.snakes[i].alive && !self.snakes[i].stacked()
                                && self.snakes[i].seg(self.snakes[i].len - 1) == p;
                        assert(self.snakes[j].seg(l - 1) != self.tail_cell(i));
                    }
                } else {
                    assert(self.eats(moves, j));
                }
            }
        }
        assert forall|i: int| 0 <= i < r.num_snakes && #[trigger] r.snakes[i].alive implies after.contains(
            r.snakes[i].seg(0) as int,
        ) by {
            assert(after.contains(r.snakes[i].seg(0) as int));
        }
    }

    /// Every cell of `all_bodies` is a segment of a live snake in play.
    pub open spec fn cells_of_live(&self) -> bool {
        forall|p: int|
            #[trigger] bits(self.all_bodies).contains(p) ==> exists|i: int, k: int|
                0 <= i < self.num_snakes && self.snakes[i].alive && 0 <= k < self.snakes[i].len
                    && #[trigger] self.snakes[i].seg(k) == p
    }

    /// Snakes that die leave the board: if before a turn every occupied cell is a
    /// segment of a live snake, then after it every occupied cell is a segment of a
    /// snake still alive, so no cell of a snake that died this turn stays occupied
    /// unless a survivor stands on it.
    pub proof fn lemma_dead_leave_board(&self, moves: [Option<Direction>; MAX_SNAKES], r: SimState)
        requires
            self.wf(),
            self.successor(moves, r),
            self.cells_of_live(),
            forall|i: int| 0 <= i < self.num_snakes && #[trigger] self.snakes[i].alive ==> self.snakes[i].len < 128,
        ensures
            r.cells_of_live(),
    {
        let n = self.num_snakes as int;
        let after = bits(r.all_bodies);
        assert forall|i: int| 0 <= i < n && #[trigger] self.snakes[i].alive && !self.deaths(moves)[i] implies self.advances(
            moves,
            i,
        ) && r.snakes[i].alive && r.snakes[i].len == self.moved_len(moves, i) by {
            self.lemma_meetings_superset(moves, self.solo_deaths(moves), 0, 1);
            assert(!self.solo_deaths(moves)[i]);
            assert(r.snakes[i] == (SnakeState {
                alive: self.snakes[i].alive && !self.deaths(moves)[i],
                ..self.final_snake(moves, i)
            }));
            self.lemma_moved_cells(moves, i, 0);
        }
        assert forall|i: int, k: int|
            0 <= i < n && self.snakes[i].alive && 0 <= k < self.moved_len(moves, i) implies #[trigger] r.snakes[i].seg(k)
            == self.moved_seg(moves, i, k) by {
            assert(r.snakes[i] == (SnakeState {
                alive: self.snakes[i].alive && !self.deaths(moves)[i],
                ..self.final_snake(moves, i)
            }));
            self.lemma_moved_cells(moves, i, k);
        }
        assert forall|p: int| #[trigger] after.contains(p) implies exists|i: int, k: int|
            0 <= i < r.num_snakes && r.snakes[i].alive && 0 <= k < r.snakes[i].len && #[trigger] r.snakes[i].seg(k)
                == p by {
            assert(!self.dead_cells(moves).contains(p));
            // the snake `i` and segment `k` of the state after the move that is on `p`
            let (i, k) = if bits(self.all_bodies).contains(p) && !self.moving_tails().contains(p) {
                let (i, k) = choose|i: int, k: int|
                    0 <= i < n && self.snakes[i].alive && 0 <= k < self.snakes[i].len && #[trigger] self.snakes[i].seg(k)
                        == p;
                let len = self.snakes[i].len as int;
                if !self.advances(moves, i) {
                    (i, k)
                } else if k < len - 1 {
                    self.lemma_advanced_segments(moves, i, k + 1);
                    (i, k + 1)
                } else if self.snakes[i].stacked() {
                    self.lemma_advanced_segments(moves, i, k);
                    (i, k)
                } else {
                    assert(self.moving_tails().contains(p));
                    (i, k)
                }
            } else if exists|i: int| #[trigger] self.advances(moves, i) && self.target_cell(moves, i) == p {
                let i = choose|i: int| #[trigger] self.advances(moves, i) && self.target_cell(moves, i) == p;
                self.lemma_advanced_segments(moves, i, 0);
                (i, 0)
            } else {
                let i = choose|i: int| #[trigger] self.eats(moves, i) && self.snakes[i].seg(self.snakes[i].len - 1) == p;
                let l = self.snakes[i].len as int;
                self.lemma_advanced_segments(moves, i, l);
                (i, l)
            };
            assert(0 <= i < n && self.snakes[i].alive && 0 <= k < self.moved_len(moves, i) && self.moved_seg(moves, i, k)
                == p);
            if self.deaths(moves)[i] {
                assert(self.dead_cells(moves).contains(p));
            }
            assert(r.snakes[i].seg(k) == p);
        }
    }

    /// A dead snake stays exactly as it was.
    pub proof fn lemma_dead_stay_dead(&self, moves: [Option<Direction>; MAX_SNAKES], r: SimState, i: int)
        requires
            self.wf(),
            self.successor(moves, r),
            0 <= i < MAX_SNAKES,
            !self.snakes[i].alive,
        ensures
            r.snakes[i] == self.snakes[i],
    {
        assert(r.snakes[i] == (SnakeState {
            alive: self.snakes[i].alive && !self.deaths(moves)[i],
            ..self.final_snake(moves, i)
        }));
        assert(!self.advances(moves, i));
        assert(!self.in_hazard(moves, i));
    }

    /// A snake that leaves the board, starves or runs into a body dies.
    pub proof fn lemma_solo_death(&self, moves: [Option<Direction>; MAX_SNAKES], r: SimState, i: int)
        requires
            self.wf(),
            self.successor(moves, r),
            0 <= i < MAX_SNAKES,
            self.dies_alone(moves, i),
        ensures
            !r.snakes[i].alive,
    {
        self.lemma_meetings_superset(moves, self.solo_deaths(moves), 0, 1);
        assert(self.solo_deaths(moves)[i]);
        assert(r.snakes[i] == (SnakeState {
            alive: self.snakes[i].alive && !self.deaths(moves)[i],
            ..self.final_snake(moves, i)
        }));
    }

    /// Every snake in play that is alive after a turn has positive health.
    pub proof fn lemma_survivors_healthy(&self, moves: [Option<Direction>; MAX_SNAKES], r: SimState, i: int)
        requires
            self.wf(),
            self.turn_in_range(moves),
            self.successor(moves, r),
            0 <= i < self.num_snakes,
            r.snakes[i].alive,
        ensures
            r.snakes[i].health > 0,
    {
        assert(r.snakes[i] == (SnakeState {
            alive: self.snakes[i].alive && !self.deaths(moves)[i],
            ..self.final_snake(moves, i)
        }));
        self.lemma_meetings_superset(moves, self.solo_deaths(moves), 0, 1);
        assert(!self.solo_deaths(moves)[i]);
        assert(!self.dies_alone(moves, i));
        if self.in_hazard(moves, i) {
        } else if self.advances(moves, i) {
            assert(self.snakes[i].health > i16::MIN);
        }
    }

    /// A snake that eats grows by one segment (up to 255) and its health is full,
    /// less the hazard damage when its new head is on a hazard.
    pub proof fn lemma_eating(&self, moves: [Option<Direction>; MAX_SNAKES], r: SimState, i: int)
        requires
            self.wf(),
            self.turn_in_range(moves),
            self.successor(moves, r),
            0 <= i < MAX_SNAKES,
            self.eats(moves, i),
        ensures
            r.snakes[i].len == (if self.snakes[i].len < 255 {
                self.snakes[i].len + 1
            } else {
                255
            }),
            r.snakes[i].health == (if self.in_hazard(moves, i) {
                100 - self.hazard_damage
            } else {
                100
            }),
    {
        assert(r.snakes[i] == (SnakeState {
            alive: self.snakes[i].alive && !self.deaths(moves)[i],
            ..self.final_snake(moves, i)
        }));
    }
}

} // verus!
