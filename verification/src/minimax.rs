//! The bookkeeping of the game-tree search: state hashing and the move-ordering
//! tables (killer moves and history scores).
use vstd::prelude::*;
use crate::simulator::{SimState, MAX_SNAKES};
use crate::types::{Direction, dir_index, dir_of_index, manhattan_spec};
use crate::bitboard::{Bitboard, neighborhood};
use crate::bits::{bits, lemma_bit_and, lemma_zero_iff_empty};
use crate::board::count_where;

verus! {

/// The deepest search level the killer table keeps moves for.
pub const MAX_DEPTH: usize = 24;

/// The hash contribution of the live snakes among the first `k`.
pub open spec fn snakes_hash(state: SimState, k: int) -> u64
    decreases k,
{
    if k <= 0 {
        14695981039346656037u64
    } else {
        let prev = snakes_hash(state, k - 1);
        let s = state.snakes[k - 1];
        if s.alive {
            let contribution = ((s.seg(0) as u64).wrapping_mul(0x9e3779b97f4a7c15u64).wrapping_add(
                (s.len as u64).wrapping_mul(0x6c62272e07bb0142u64),
            )).wrapping_mul((k as u64).wrapping_mul(0x517cc1b727220a95u64));
            prev ^ contribution
        } else {
            prev
        }
    }
}

/// The hash of a state: the live snakes' heads and lengths, the food and the
/// occupied cells.
pub open spec fn state_hash(state: SimState) -> u64 {
    let h = snakes_hash(state, state.num_snakes as int);
    let h2 = h ^ ((#[verifier::truncate] (state.food as u64)) ^ (#[verifier::truncate] ((state.food >> 64u128) as u64)).wrapping_mul(0xbf58476d1ce4e5b9u64));
    h2 ^ (#[verifier::truncate] (state.all_bodies as u64)).wrapping_mul(0x94d049bb133111ebu64)
}

/// Hashes a state for the transposition table.
pub fn hash_state(state: &SimState) -> (h: u64)
    requires
        state.num_snakes <= MAX_SNAKES,
        forall|i: int| 0 <= i < MAX_SNAKES ==> #[trigger] state.snakes[i].head_ptr < 128,
    ensures
        h == state_hash(*state),
{
    let mut h: u64 = 14695981039346656037;
    let mut i: usize = 0;
    while i < state.num_snakes as usize
        invariant
            state.num_snakes <= MAX_SNAKES,
            forall|j: int| 0 <= j < MAX_SNAKES ==> #[trigger] state.snakes[j].head_ptr < 128,
            i <= state.num_snakes,
            h == snakes_hash(*state, i as int),
        decreases state.num_snakes - i,
    {
        let s = &state.snakes[i];
        if s.alive {
            let contribution = (s.head() as u64).wrapping_mul(0x9e3779b97f4a7c15u64).wrapping_add(
                (s.len as u64).wrapping_mul(0x6c62272e07bb0142u64),
            ).wrapping_mul((i as u64 + 1).wrapping_mul(0x517cc1b727220a95u64));
            h ^= contribution;
        }
        i += 1;
    }
    h ^= (state.food as u64) ^ ((state.food >> 64) as u64).wrapping_mul(0xbf58476d1ce4e5b9);
    h ^= (state.all_bodies as u64).wrapping_mul(0x94d049bb133111eb);
    h
}

/// For each search depth, the last two moves that caused a cutoff, newest first.
pub struct KillerTable {
    pub moves: [[Option<Direction>; 2]; MAX_DEPTH],
}

/// The killer moves after recording `mv` at `depth`: unless it is already the
/// newest there, it becomes the newest and the previous newest the second.
pub open spec fn killers_after(moves: Seq<[Option<Direction>; 2]>, depth: int, mv: Direction) -> Seq<
    [Option<Direction>; 2],
> {
    if 0 <= depth < MAX_DEPTH && moves[depth][0] != Some(mv) {
        moves.update(depth, [Some(mv), moves[depth][0]])
    } else {
        moves
    }
}

/// The killers at `depth`, or none past the deepest level.
pub open spec fn killers_at(moves: Seq<[Option<Direction>; 2]>, depth: int) -> [Option<Direction>; 2] {
    if 0 <= depth < MAX_DEPTH {
        moves[depth]
    } else {
        [None, None]
    }
}

/// After a move is recorded at a level of the table, reading that level gives it
/// first, followed by the killer that was first before (or the same pair when it
/// was already first); other levels read as before.
pub proof fn lemma_killer_read_after_store(moves: Seq<[Option<Direction>; 2]>, depth: int, mv: Direction, other: int)
    requires
        moves.len() == MAX_DEPTH,
        0 <= depth < MAX_DEPTH,
        other != depth,
    ensures
        killers_at(killers_after(moves, depth, mv), depth)[0] == Some(mv),
        moves[depth][0] != Some(mv) ==> killers_at(killers_after(moves, depth, mv), depth)[1] == moves[depth][0],
        killers_at(killers_after(moves, depth, mv), other) == killers_at(moves, other),
{
}

impl KillerTable {
    pub fn new() -> (t: KillerTable)
        ensures
            forall|d: int, s: int| 0 <= d < MAX_DEPTH && 0 <= s < 2 ==> #[trigger] t.moves[d][s] is None,
    {
        KillerTable { moves: [[None, None]; 24] }
    }

    /// Records `mv` at `depth`: unless it is already the newest killer there, it
    /// becomes the newest and the previous newest becomes the second.
    pub fn store(&mut self, depth: usize, mv: Direction)
        ensures
            final(self).moves@ == killers_after(old(self).moves@, depth as int, mv),
    {
        if depth < MAX_DEPTH {
            let slot = self.moves[depth];
            let same = match slot[0] {
                Some(d) => d == mv,
                None => false,
            };
            if !same {
                let new_slot = [Some(mv), slot[0]];
                self.moves[depth] = new_slot;
                assert(new_slot =~= [Some(mv), old(self).moves[depth as int][0]]);
            }
        }
    }

    /// The killers at `depth`, or none past the deepest level.
    pub fn get(&self, depth: usize) -> (r: [Option<Direction>; 2])
        ensures
            r == killers_at(self.moves@, depth as int),
    {
        if depth < MAX_DEPTH {
            self.moves[depth]
        } else {
            [None, None]
        }
    }
}

/// For each cell of an 11 x 11 board and each direction, a score of how often the
/// move from there caused a cutoff, weighted by depth squared.
pub struct HistoryTable {
    pub scores: [[i32; 4]; 121],
}

impl HistoryTable {
    pub fn new() -> (t: HistoryTable)
        ensures
            forall|p: int, d: int| 0 <= p < 121 && 0 <= d < 4 ==> #[trigger] t.scores[p][d] == 0,
    {
        HistoryTable { scores: [[0i32, 0, 0, 0]; 121] }
    }

    /// Adds `depth * depth` to the score of moving in `dir` from cell `from_pos`;
    /// cells past the table are ignored.
    pub fn add(&mut self, from_pos: u8, dir: Direction, depth: i32)
        requires
            from_pos < 121 ==> depth * depth <= i32::MAX,
            from_pos < 121 ==> i32::MIN <= old(self).scores[from_pos as int][dir_index(dir)] + depth * depth <= i32::MAX,
        ensures
            from_pos < 121 ==> final(self).scores[from_pos as int]@ == old(self).scores[from_pos as int]@.update(
                dir_index(dir),
                (old(self).scores[from_pos as int][dir_index(dir)] + depth * depth) as i32,
            ),
            forall|q: int| 0 <= q < 121 && q != from_pos ==> #[trigger] final(self).scores[q] == old(self).scores[q],
            from_pos >= 121 ==> final(self).scores == old(self).scores,
    {
        let pos = from_pos as usize;
        if pos < 121 {
            assert(depth * depth >= 0) by (nonlinear_arith);
            let mut row = self.scores[pos];
            let d = dir.to_index();
            row[d] = row[d] + depth * depth;
            self.scores[pos] = row;
        }
    }

    /// The score of moving in `dir` from `from_pos`, 0 past the table.
    pub fn get(&self, from_pos: u8, dir: Direction) -> (s: i32)
        ensures
            s == (if from_pos < 121 {
                self.scores[from_pos as int][dir_index(dir)]
            } else {
                0
            }),
    {
        let pos = from_pos as usize;
        if pos < 121 {
            self.scores[pos][dir.to_index()]
        } else {
            0
        }
    }
}

/// The position is noisy, worth searching past the depth limit: my snake is alive
/// and an enemy head is within two steps, food is next to my head, or I have a
/// single valid move.
pub open spec fn noisy(st: SimState) -> bool {
    let me = st.my_idx as int;
    let w = st.width as int;
    &&& st.snakes[me].alive
    &&& {
        ||| exists|i: int|
            0 <= i < st.num_snakes && i != me && #[trigger] st.snakes[i].alive && manhattan_spec(
                st.head_x(me),
                st.head_y(me),
                st.head_x(i),
                st.head_y(i),
            ) <= 2
        ||| neighborhood(Set::empty().insert(st.snakes[me].seg(0) as int), w, st.height as int).intersect(
            bits(st.food),
        ) != Set::<int>::empty()
        ||| count_where(4, |k: int| st.valid_move(me, dir_of_index(k))) == 1
    }
}

/// Whether the search should look further at this position.
pub fn is_noisy(state: &SimState) -> (b: bool)
    requires
        state.wf(),
        state.width < 128,
    ensures
        b == noisy(*state),
{
    let my_idx = state.my_idx as usize;
    let my = &state.snakes[my_idx];
    if !my.alive {
        return false;
    }
    let my_head = my.head();
    let my_hx = (my_head % state.width) as i32;
    let my_hy = (my_head / state.width) as i32;
    let mut i: usize = 0;
    while i < state.num_snakes as usize
        invariant
            state.wf(),
            my_idx == state.my_idx,
            state.snakes[my_idx as int].alive,
            my_hx == state.head_x(my_idx as int),
            my_hy == state.head_y(my_idx as int),
            0 <= my_hx <= 255,
            0 <= my_hy <= 255,
            i <= state.num_snakes,
            !exists|j: int|
                0 <= j < i && j != my_idx && #[trigger] state.snakes[j].alive && manhattan_spec(
                    state.head_x(my_idx as int),
                    state.head_y(my_idx as int),
                    state.head_x(j),
                    state.head_y(j),
                ) <= 2,
        decreases state.num_snakes - i,
    {
        if i != my_idx && state.snakes[i].alive {
            let eh = state.snakes[i].head();
            let ex = (eh % state.width) as i32;
            let ey = (eh / state.width) as i32;
            let dx = if my_hx >= ex { my_hx - ex } else { ex - my_hx };
            let dy = if my_hy >= ey { my_hy - ey } else { ey - my_hy };
            if dx + dy <= 2 {
                assert(state.snakes[i as int].alive && manhattan_spec(
                    state.head_x(my_idx as int),
                    state.head_y(my_idx as int),
                    state.head_x(i as int),
                    state.head_y(i as int),
                ) <= 2);
                return true;
            }
        }
        i += 1;
    }
    assert(my_head < state.width * state.height);
    let head_bb = Bitboard::from_idx(my_head as u32);
    let expanded = head_bb.expand(&state.masks);
    proof {
        lemma_bit_and(expanded.0, state.food);
        lemma_zero_iff_empty(expanded.0 & state.food);
        assert(bits(expanded.0 & state.food) =~= expanded@.intersect(bits(state.food)));
    }
    if expanded.0 & state.food != 0 {
        return true;
    }
    let valid = state.get_valid_moves(my_idx);
    let mut move_count: usize = 0;
    let mut k: usize = 0;
    while k < 4
        invariant
            k <= 4,
            forall|d: int|
                0 <= d < 4 ==> #[trigger] valid[d] == (if state.valid_move(my_idx as int, dir_of_index(d)) {
                    Some(dir_of_index(d))
                } else {
                    None
                }),
            move_count == count_where(k as int, |j: int| state.valid_move(my_idx as int, dir_of_index(j))),
            move_count <= k,
        decreases 4 - k,
    {
        if valid[k].is_some() {
            move_count += 1;
        }
        k += 1;
    }
    move_count == 1
}

/// The priority of trying move `mv` from cell `head`: its history score, plus a
/// million when it is the stored best move and a hundred thousand or fifty
/// thousand when it is the first or second killer move.
pub open spec fn move_priority(
    history: HistoryTable,
    head: u8,
    killers: [Option<Direction>; 2],
    tt_move: Option<Direction>,
    mv: Direction,
) -> int {
    let base: int = if head < 121 {
        history.scores[head as int][dir_index(mv)] as int
    } else {
        0
    };
    let tt: int = if tt_move == Some(mv) {
        1_000_000
    } else {
        0
    };
    let killer: int = if killers[0] == Some(mv) {
        100_000
    } else if killers[1] == Some(mv) {
        50_000
    } else {
        0
    };
    base + tt + killer
}

/// `r` lists `moves` by the permutation `p`, highest priority first, ties kept in
/// their given order.
pub open spec fn ordered_by_priority(
    moves: Seq<Direction>,
    r: Seq<Direction>,
    p: Seq<int>,
    history: HistoryTable,
    head: u8,
    killers: [Option<Direction>; 2],
    tt_move: Option<Direction>,
) -> bool {
    &&& p.len() == moves.len()
    &&& r.len() == moves.len()
    &&& forall|i: int| 0 <= i < p.len() ==> 0 <= #[trigger] p[i] < moves.len()
    &&& forall|i: int, j: int| 0 <= i < p.len() && 0 <= j < p.len() && i != j ==> #[trigger] p[i] != #[trigger] p[j]
    &&& forall|i: int| 0 <= i < r.len() ==> #[trigger] r[i] == moves[p[i]]
    &&& forall|i: int, j: int|
        0 <= i < j < r.len() ==> move_priority(history, head, killers, tt_move, #[trigger] r[i]) > move_priority(history, head, killers, tt_move, #[trigger] r[j]) || (move_priority(history, head, killers, tt_move, r[i]) == move_priority(history, head, killers, tt_move, r[j]) && p[i]
            < p[j])
}

/// Inserting a move after every move of at least its priority and before the
/// rest keeps the order.
proof fn lemma_ordered_insert(
    mk: Seq<Direction>,
    mv: Direction,
    old_r: Seq<Direction>,
    old_p: Seq<int>,
    pos: int,
    history: HistoryTable,
    head: u8,
    killers: [Option<Direction>; 2],
    tt_move: Option<Direction>,
)
    requires
        ordered_by_priority(mk, old_r, old_p, history, head, killers, tt_move),
        0 <= pos <= old_r.len(),
        forall|i: int|
            0 <= i < pos ==> move_priority(history, head, killers, tt_move, #[trigger] old_r[i]) >= move_priority(
                history,
                head,
                killers,
                tt_move,
                mv,
            ),
        pos < old_r.len() ==> move_priority(history, head, killers, tt_move, old_r[pos]) < move_priority(
            history,
            head,
            killers,
            tt_move,
            mv,
        ),
    ensures
        ordered_by_priority(
            mk.push(mv),
            old_r.insert(pos, mv),
            old_p.insert(pos, mk.len() as int),
            history,
            head,
            killers,
            tt_move,
        ),
{
    let r = old_r.insert(pos, mv);
    let p = old_p.insert(pos, mk.len() as int);
    let mk1 = mk.push(mv);
    let pm = move_priority(history, head, killers, tt_move, mv);
    assert forall|i: int| 0 <= i < p.len() implies 0 <= #[trigger] p[i] < mk1.len() by {
        if i < pos {
            assert(p[i] == old_p[i]);
        } else if i > pos {
            assert(p[i] == old_p[i - 1]);
        }
    }
    assert forall|i: int, j: int| 0 <= i < p.len() && 0 <= j < p.len() && i != j implies #[trigger] p[i]
        != #[trigger] p[j] by {
        if i != pos && j != pos {
            let oi = if i < pos { i } else { i - 1 };
            let oj = if j < pos { j } else { j - 1 };
            assert(p[i] == old_p[oi]);
            assert(p[j] == old_p[oj]);
        } else if i == pos {
            let oj = if j < pos { j } else { j - 1 };
            assert(p[j] == old_p[oj]);
        } else {
            let oi = if i < pos { i } else { i - 1 };
            assert(p[i] == old_p[oi]);
        }
    }
    assert forall|i: int| 0 <= i < r.len() implies #[trigger] r[i] == mk1[p[i]] by {
        if i < pos {
            assert(r[i] == old_r[i] && p[i] == old_p[i]);
            assert(mk1[p[i]] == mk[p[i]]);
        } else if i > pos {
            assert(r[i] == old_r[i - 1] && p[i] == old_p[i - 1]);
            assert(mk1[p[i]] == mk[p[i]]);
        }
    }
    assert forall|i: int, j: int| 0 <= i < j < r.len() implies move_priority(
        history,
        head,
        killers,
        tt_move,
        #[trigger] r[i],
    ) > move_priority(history, head, killers, tt_move, #[trigger] r[j]) || (move_priority(
        history,
        head,
        killers,
        tt_move,
        r[i],
    ) == move_priority(history, head, killers, tt_move, r[j]) && p[i] < p[j]) by {
        if j < pos {
            assert(r[i] == old_r[i] && p[i] == old_p[i]);
            assert(r[j] == old_r[j] && p[j] == old_p[j]);
        } else if j == pos {
            assert(r[i] == old_r[i] && p[i] == old_p[i]);
        } else if i > pos {
            assert(r[i] == old_r[i - 1] && p[i] == old_p[i - 1]);
            assert(r[j] == old_r[j - 1] && p[j] == old_p[j - 1]);
        } else if i == pos {
            assert(r[j] == old_r[j - 1]);
            if j - 1 > pos {
                assert(old_r[pos] == old_r[pos]);
                assert(move_priority(history, head, killers, tt_move, old_r[pos]) >= move_priority(
                    history,
                    head,
                    killers,
                    tt_move,
                    old_r[j - 1],
                ));
            }
        } else {
            assert(r[i] == old_r[i] && p[i] == old_p[i]);
            assert(r[j] == old_r[j - 1] && p[j] == old_p[j - 1]);
        }
    }
}

/// `moves` in the order the search tries them: by priority, highest first, ties
/// kept in order.
pub fn order_moves(
    moves: &Vec<Direction>,
    history: &HistoryTable,
    head: u8,
    killers: [Option<Direction>; 2],
    tt_move: Option<Direction>,
) -> (r: Vec<Direction>)
    requires
        head < 121 ==> forall|d: int| 0 <= d < 4 ==> #[trigger] history.scores[head as int][d] <= i32::MAX - 1_100_000,
    ensures
        exists|p: Seq<int>|
            #[trigger] ordered_by_priority(moves@, r@, p, *history, head, killers, tt_move),
{
    let mut r: Vec<Direction> = Vec::new();
    let mut keys: Vec<i32> = Vec::new();
    let ghost mut p: Seq<int> = Seq::empty();
    let mut k: usize = 0;
    while k < moves.len()
        invariant
            head < 121 ==> forall|d: int| 0 <= d < 4 ==> #[trigger] history.scores[head as int][d] <= i32::MAX - 1_100_000,
            k <= moves.len(),
            keys.len() == r.len(),
            forall|i: int| 0 <= i < r.len() ==> #[trigger] keys[i] == move_priority(*history, head, killers, tt_move, r[i]),
            ordered_by_priority(moves@.take(k as int), r@, p, *history, head, killers, tt_move),
        decreases moves.len() - k,
    {
        let mv = moves[k];
        let mut priority: i32 = history.get(head, mv);
        proof {
            crate::types::lemma_index_round_trip(mv);
        }
        let same_tt = match tt_move {
            Some(t) => t == mv,
            None => false,
        };
        if same_tt {
            priority += 1_000_000;
        }
        let first_killer = match killers[0] {
            Some(t) => t == mv,
            None => false,
        };
        let second_killer = match killers[1] {
            Some(t) => t == mv,
            None => false,
        };
        if first_killer {
            priority += 100_000;
        } else if second_killer {
            priority += 50_000;
        }
        assert(priority == move_priority(*history, head, killers, tt_move, mv));
        let mut pos: usize = 0;
        while pos < r.len() && keys[pos] >= priority
            invariant
                pos <= r.len(),
                keys.len() == r.len(),
                forall|i: int| 0 <= i < pos ==> #[trigger] keys[i] >= priority,
            decreases r.len() - pos,
        {
            pos += 1;
        }
        assert forall|i: int| 0 <= i < pos implies move_priority(*history, head, killers, tt_move, #[trigger] r@[i])
            >= move_priority(*history, head, killers, tt_move, mv) by {
            assert(keys[i] >= priority);
        }
        let ghost old_r = r@;
        let ghost old_keys = keys@;
        let ghost old_p = p;
        let ghost mk = moves@.take(k as int);
        r.insert(pos, mv);
        keys.insert(pos, priority);
        proof {
            p = p.insert(pos as int, k as int);
            assert forall|i: int| 0 <= i < r.len() implies #[trigger] keys[i] == move_priority(
                *history,
                head,
                killers,
                tt_move,
                r@[i],
            ) by {
                if i < pos {
                    assert(r@[i] == old_r[i] && keys@[i] == old_keys[i]);
                } else if i > pos {
                    assert(r@[i] == old_r[i - 1] && keys@[i] == old_keys[i - 1]);
                }
            }
            assert(moves@.take(k as int + 1) =~= mk.push(mv));
            lemma_ordered_insert(mk, mv, old_r, old_p, pos as int, *history, head, killers, tt_move);
        }
        k += 1;
    }
    assert(moves@.take(moves.len() as int) =~= moves@);
    r
}

} // verus!

verus! {

/// The number of entries of the transposition table.
pub const TT_SIZE: usize = 0x40_0000;

/// A stored search result: the position's hash, its score (the bits of a 32-bit
/// float, carried unread), the depth searched, the best move's index, the bound
/// kind and the search it belongs to.
#[derive(Clone, Copy, Debug, PartialEq, Eq, Structural)]
pub struct TtEntry {
    pub hash: u64,
    pub score_bits: u32,
    pub depth: u8,
    pub best_move: u8,
    pub flag: u8,
    pub generation: u8,
}

/// Search results kept between searches, one slot per hash residue.
pub struct TranspositionTable {
    pub table: Vec<TtEntry>,
    pub generation: u8,
}

/// The slot of a hash: its residue modulo the table size.
pub open spec fn tt_slot(hash: u64) -> int {
    (hash % (TT_SIZE as u64)) as int
}

/// An empty entry.
pub open spec fn empty_entry() -> TtEntry {
    TtEntry { hash: 0, score_bits: 0, depth: 0, best_move: 0, flag: 0, generation: 0 }
}

/// What a probe of `hash` finds in `table` during search `generation`: the entry
/// in its slot, when it is for `hash`, at a positive depth and from this search.
pub open spec fn tt_lookup(table: Seq<TtEntry>, generation: u8, hash: u64) -> Option<TtEntry> {
    let e = table[tt_slot(hash)];
    if e.hash == hash && e.depth > 0 && e.generation == generation {
        Some(e)
    } else {
        None
    }
}

/// The table after storing entry `new`: it takes its slot unless the slot holds a
/// result for the same position from this search at a greater depth.
pub open spec fn tt_stored(table: Seq<TtEntry>, generation: u8, new: TtEntry) -> Seq<TtEntry> {
    let existing = table[tt_slot(new.hash)];
    if existing.generation != generation || existing.hash != new.hash || new.depth >= existing.depth {
        table.update(tt_slot(new.hash), new)
    } else {
        table
    }
}

/// A result stored at a positive depth is found by the next probe of its position
/// in the same search, unless a deeper result for it was already there, which is
/// then found instead.
pub proof fn lemma_store_then_probe(table: Seq<TtEntry>, generation: u8, new: TtEntry)
    requires
        table.len() == TT_SIZE,
        new.generation == generation,
        new.depth > 0,
    ensures
        tt_lookup(tt_stored(table, generation, new), generation, new.hash) == (if tt_stored(
            table,
            generation,
            new,
        ) == table {
            tt_lookup(table, generation, new.hash)
        } else {
            Some(new)
        }),
        tt_lookup(tt_stored(table, generation, new), generation, new.hash) is Some,
{
    assert(0 <= tt_slot(new.hash) < TT_SIZE);
}

/// Storing a result leaves every other slot as it was.
pub proof fn lemma_store_keeps_other_slots(table: Seq<TtEntry>, generation: u8, new: TtEntry, hash: u64)
    requires
        table.len() == TT_SIZE,
        tt_slot(hash) != tt_slot(new.hash),
    ensures
        tt_lookup(tt_stored(table, generation, new), generation, hash) == tt_lookup(table, generation, hash),
{
    assert(0 <= tt_slot(hash) < TT_SIZE);
}

proof fn lemma_slot_mask(hash: u64)
    by (bit_vector)
    ensures
        ((hash as usize) & 0x3f_ffffusize) as u64 == hash % 0x40_0000u64,
{
}

impl TranspositionTable {
    /// A table of `TT_SIZE` empty entries.
    pub fn new() -> (t: TranspositionTable)
        ensures
            t.table.len() == TT_SIZE,
            forall|i: int| 0 <= i < TT_SIZE ==> #[trigger] t.table@[i] == empty_entry(),
            t.generation == 0,
    {
        let e = TtEntry { hash: 0, score_bits: 0, depth: 0, best_move: 0, flag: 0, generation: 0 };
        TranspositionTable { table: vec![e; TT_SIZE], generation: 0 }
    }

    /// Starts a new search: entries of earlier searches no longer count.
    pub fn new_search(&mut self)
        ensures
            final(self).generation == (if old(self).generation == 255 {
                0
            } else {
                old(self).generation + 1
            }),
            final(self).table == old(self).table,
    {
        self.generation = self.generation.wrapping_add(1);
    }

    /// The slot of `hash` in the table.
    fn slot(hash: u64) -> (i: usize)
        ensures
            i == tt_slot(hash),
            i < TT_SIZE,
    {
        proof {
            lemma_slot_mask(hash);
        }
        (hash as usize) & (TT_SIZE - 1)
    }

    /// The entry stored for `hash` in this search, if its slot holds one at a
    /// positive depth.
    pub fn probe(&self, hash: u64) -> (r: Option<TtEntry>)
        requires
            self.table.len() == TT_SIZE,
        ensures
            r == tt_lookup(self.table@, self.generation, hash),
    {
        let entry = self.table[Self::slot(hash)];
        if entry.hash == hash && entry.depth > 0 && entry.generation == self.generation {
            Some(entry)
        } else {
            None
        }
    }

    /// Stores a result for `hash`, unless its slot holds a deeper result for the
    /// same position from this search.
    pub fn store(&mut self, hash: u64, score_bits: u32, depth: u8, best_move: u8, flag: u8)
        requires
            old(self).table.len() == TT_SIZE,
        ensures
            final(self).generation == old(self).generation,
            final(self).table@ == tt_stored(
                old(self).table@,
                old(self).generation,
                TtEntry { hash, score_bits, depth, best_move, flag, generation: old(self).generation },
            ),
    {
        let idx = Self::slot(hash);
        let existing = self.table[idx];
        if existing.generation != self.generation || existing.hash != hash || depth >= existing.depth {
            let g = self.generation;
            self.table.set(idx, TtEntry { hash, score_bits, depth, best_move, flag, generation: g });
        }
    }
}

} // verus!
