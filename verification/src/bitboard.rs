//! Bitboards: sets of cells of a board of at most 128 cells, one bit per cell in
//! row-major order, and the masks that describe the board's shape.
use vstd::prelude::*;
use crate::bits::{bit, bits, lemma_bit_max, lemma_bit_low, lemma_bit_zero, lemma_bit_or, lemma_bit_single, lemma_bit_shl, lemma_single_positive, lemma_bit_shr, lemma_bit_and, lemma_bit_not, lemma_test_single, lemma_bits_finite, count_bits, lemma_zero_iff_empty, lemma_superset_greater, lemma_bits_injective_eq, lemma_round_facts, lemma_and_idempotent, lemma_bits_injective};
use vstd::arithmetic::div_mod::{lemma_fundamental_div_mod, lemma_fundamental_div_mod_converse};
use vstd::set_lib::set_int_range;

verus! {

/// Masks of a `width` x `height` board.
#[derive(Clone, Copy, Debug)]
pub struct BoardMasks {
    pub width: u32,
    pub height: u32,
    pub board_mask: u128,
    pub left_col_mask: u128,
    pub right_col_mask: u128,
    pub top_row_mask: u128,
}

/// The cells of a `w` x `h` board, as row-major indices.
pub open spec fn board_cells(w: int, h: int) -> Set<int> {
    set_int_range(0, w * h)
}

impl BoardMasks {
    /// The masks describe a board of `width * height <= 128` cells: every cell,
    /// its first column, its last column and its top row.
    pub open spec fn wf(&self) -> bool {
        let w = self.width as int;
        let n = self.width * self.height;
        &&& 1 <= self.width
        &&& 1 <= self.height
        &&& n <= 128
        &&& forall|i: int| #[trigger] bit(self.board_mask, i) == (0 <= i < n)
        &&& forall|i: int| #[trigger] bit(self.left_col_mask, i) == (0 <= i < n && i % w == 0)
        &&& forall|i: int| #[trigger] bit(self.right_col_mask, i) == (0 <= i < n && i % w == w - 1)
        &&& forall|i: int| #[trigger] bit(self.top_row_mask, i) == (n - w <= i < n)
    }

    /// The cells of the board the masks describe.
    pub open spec fn cells(&self) -> Set<int> {
        board_cells(self.width as int, self.height as int)
    }

    /// Builds the masks of a `width` x `height` board.
    pub fn new(width: u32, height: u32) -> (m: BoardMasks)
        requires
            1 <= width,
            1 <= height,
            width * height <= 128,
        ensures
            m.wf(),
            m.width == width,
            m.height == height,
    {
        let n = width * height;
        let board_mask: u128 = if n == 128 {
            proof {
                lemma_bit_max();
            }
            !0u128
        } else {
            proof {
                lemma_bit_low(n as u128);
                lemma_single_positive(n as u128);
            }
            (1u128 << n) - 1
        };
        let ghost w = width as int;
        let mut left_col_mask: u128 = 0;
        let mut row: u32 = 0;
        proof {
            lemma_bit_zero();
        }
        while row < height
            invariant
                1 <= width,
                row <= height,
                n == width * height,
                n <= 128,
                w == width,
                forall|i: int| #[trigger] bit(left_col_mask, i) == (0 <= i < row * w && i % w == 0),
            decreases height - row,
        {
            proof {
                lemma_row_start_below(row as int, height as int, w);
            }
            let k = row * width;
            let old_mask = left_col_mask;
            left_col_mask = left_col_mask | (1u128 << k);
            proof {
                lemma_bit_or(old_mask, 1u128 << k);
                lemma_bit_single(k as u128);
                assert forall|i: int| #[trigger] bit(left_col_mask, i) == (0 <= i < (row + 1) * w && i % w == 0) by {
                    lemma_column_start(i, row as int, w);
                }
            }
            row = row + 1;
        }
        proof {
            assert(width <= 128) by (nonlinear_arith)
                requires
                    width * height <= 128,
                    1 <= height,
            ;
            assert(row * w == w * height) by (nonlinear_arith)
                requires
                    row == height,
                    w == width,
            ;
        }
        let right_col_mask = left_col_mask << (width - 1);
        proof {
            lemma_bit_shl(left_col_mask, (width - 1) as u128);
            assert forall|i: int| #[trigger] bit(right_col_mask, i) == (0 <= i < n && i % w == w - 1) by {
                lemma_last_column(i, w, height as int);
            }
        }
        let mut top_row_mask: u128 = 0;
        let mut col: u32 = 0;
        proof {
            lemma_top_row_start(w, height as int);
        }
        let base = (height - 1) * width;
        while col < width
            invariant
                col <= width,
                base + width == n,
                n <= 128,
                forall|i: int| #[trigger] bit(top_row_mask, i) == (base <= i < base + col),
            decreases width - col,
        {
            let old_mask = top_row_mask;
            top_row_mask = top_row_mask | (1u128 << (base + col));
            proof {
                lemma_bit_or(old_mask, 1u128 << (base + col));
                lemma_bit_single((base + col) as u128);
            }
            col = col + 1;
        }
        BoardMasks { width, height, board_mask, left_col_mask, right_col_mask, top_row_mask }
    }

    /// The masks of the standard 11 x 11 board.
    pub fn standard() -> (m: BoardMasks)
        ensures
            m.wf(),
            m.width == 11,
            m.height == 11,
    {
        Self::new(11, 11)
    }
}

proof fn lemma_row_start_below(row: int, h: int, w: int)
    requires
        0 <= row < h,
        1 <= w,
        w * h <= 128,
    ensures
        0 <= row * w,
        row * w + w <= w * h,
        (row + 1) * w == row * w + w,
{
    assert(0 <= row * w) by (nonlinear_arith)
        requires
            0 <= row,
            1 <= w,
    ;
    assert(row * w + w <= w * h) by (nonlinear_arith)
        requires
            0 <= row < h,
            1 <= w,
    ;
    assert((row + 1) * w == row * w + w) by (nonlinear_arith);
}

/// Splits a cell index into its row and column.
proof fn lemma_split(i: int, w: int)
    requires
        0 <= i,
        1 <= w,
    ensures
        i == (i / w) * w + i % w,
        0 <= i % w < w,
        0 <= i / w,
{
    lemma_fundamental_div_mod(i, w);
    assert((i / w) * w == w * (i / w)) by (nonlinear_arith);
    assert(0 <= i % w < w) by {
        vstd::arithmetic::div_mod::lemma_mod_pos_bound(i, w);
    }
    assert(0 <= i / w) by {
        vstd::arithmetic::div_mod::lemma_div_pos_is_pos(i, w);
    }
}

proof fn lemma_column_start(i: int, row: int, w: int)
    requires
        0 <= row,
        1 <= w,
    ensures
        (0 <= i < (row + 1) * w && i % w == 0) == ((0 <= i < row * w && i % w == 0) || i == row * w),
{
    assert((row + 1) * w == row * w + w) by (nonlinear_arith);
    if i == row * w {
        lemma_fundamental_div_mod_converse(i, w, row, 0);
        assert(0 <= row * w) by (nonlinear_arith)
            requires
                0 <= row,
                1 <= w,
        ;
    }
    if 0 <= i && i % w == 0 && row * w <= i < (row + 1) * w {
        lemma_split(i, w);
        let q = i / w;
        assert(q == row) by (nonlinear_arith)
            requires
                i == q * w,
                row * w <= i < row * w + w,
                1 <= w,
        ;
    }
}

proof fn lemma_last_column(i: int, w: int, h: int)
    requires
        1 <= w,
        1 <= h,
        w * h <= 128,
    ensures
        (0 <= i < 128 && i >= w - 1 && (0 <= i - (w - 1) < w * h && (i - (w - 1)) % w == 0)) == (0 <= i
            < w * h && i % w == w - 1),
{
    let n = w * h;
    if 0 <= i < n && i % w == w - 1 {
        lemma_split(i, w);
        let q = i / w;
        assert(i - (w - 1) == q * w);
        lemma_fundamental_div_mod_converse(i - (w - 1), w, q, 0);
        assert(0 <= q * w) by (nonlinear_arith)
            requires
                0 <= q,
                1 <= w,
        ;
    }
    if i >= w - 1 && 0 <= i - (w - 1) < n && (i - (w - 1)) % w == 0 {
        let j = i - (w - 1);
        lemma_split(j, w);
        let q = j / w;
        assert(j == q * w);
        assert(q <= h - 1) by (nonlinear_arith)
            requires
                j == q * w,
                j < w * h,
                1 <= w,
        ;
        assert(j <= n - w) by (nonlinear_arith)
            requires
                j == q * w,
                q <= h - 1,
                1 <= w,
                n == w * h,
        ;
        lemma_fundamental_div_mod_converse(i, w, q, w - 1);
    }
}

proof fn lemma_top_row_start(w: int, h: int)
    requires
        1 <= w,
        1 <= h,
    ensures
        (h - 1) * w + w == w * h,
        0 <= (h - 1) * w,
{
    assert((h - 1) * w + w == w * h) by (nonlinear_arith);
    assert(0 <= (h - 1) * w) by (nonlinear_arith)
        requires
            1 <= w,
            1 <= h,
    ;
}

} // verus!

verus! {

/// A set of cells, one bit per cell index.
#[derive(Clone, Copy, PartialEq, Eq, Debug, Default, Hash, Structural)]
pub struct Bitboard(pub u128);

impl View for Bitboard {
    type V = Set<int>;

    open spec fn view(&self) -> Set<int> {
        bits(self.0)
    }
}

/// The row-major index of cell `(x, y)` on a board of width `w`.
pub open spec fn cell_index(x: int, y: int, w: int) -> int {
    y * w + x
}

/// The cells of a `w` x `h` board that are next to some cell of `s`.
pub open spec fn neighborhood(s: Set<int>, w: int, h: int) -> Set<int> {
    Set::new(
        |i: int|
            0 <= i < w * h && ((i >= w && s.contains(i - w)) || (i + w < w * h && s.contains(i + w)) || (i
                % w != 0 && s.contains(i - 1)) || (i % w != w - 1 && s.contains(i + 1))),
    )
}

/// One round of a flood fill: the cells of `open` that are in `s` or next to it.
pub open spec fn flood_step(s: Set<int>, open: Set<int>, w: int, h: int) -> Set<int> {
    s.union(neighborhood(s, w, h)).intersect(open)
}

/// The cells a flood fill from `seed` through `open` reaches in `k` rounds.
pub open spec fn flood_iter(seed: Set<int>, open: Set<int>, w: int, h: int, k: nat) -> Set<int>
    decreases k,
{
    if k == 0 {
        seed.intersect(open)
    } else {
        flood_step(flood_iter(seed, open, w, h, (k - 1) as nat), open, w, h)
    }
}

/// The cells reachable from `seed` by moves between neighbouring cells of `open`.
pub open spec fn reachable(seed: Set<int>, open: Set<int>, w: int, h: int) -> Set<int> {
    Set::new(|i: int| exists|k: nat| #[trigger] flood_iter(seed, open, w, h, k).contains(i))
}

/// The cells shifted one row up, kept on the board.
pub open spec fn shifted_up(s: Set<int>, m: BoardMasks) -> Set<int> {
    Set::new(|i: int| i >= m.width && s.contains(i - m.width) && bit(m.board_mask, i))
}

/// The cells shifted one row down.
pub open spec fn shifted_down(s: Set<int>, m: BoardMasks) -> Set<int> {
    Set::new(|i: int| 0 <= i && s.contains(i + m.width))
}

/// The cells shifted one column left, except those in the first column.
pub open spec fn shifted_left(s: Set<int>, m: BoardMasks) -> Set<int> {
    Set::new(|i: int| 0 <= i && s.contains(i + 1) && !bit(m.left_col_mask, i + 1))
}

/// The cells shifted one column right, except those in the last column.
pub open spec fn shifted_right(s: Set<int>, m: BoardMasks) -> Set<int> {
    Set::new(|i: int| 1 <= i < 128 && s.contains(i - 1) && !bit(m.right_col_mask, i - 1))
}

proof fn lemma_mod_succ(i: int, w: int)
    requires
        0 <= i,
        1 <= w,
    ensures
        ((i + 1) % w == 0) == (i % w == w - 1),
        (i + 1) % w == (if i % w == w - 1 { 0 } else { i % w + 1 }),
{
    lemma_split(i, w);
    let q = i / w;
    let r = i % w;
    if r == w - 1 {
        assert(i + 1 == (q + 1) * w + 0) by (nonlinear_arith)
            requires
                i == q * w + r,
                r == w - 1,
        ;
        lemma_fundamental_div_mod_converse(i + 1, w, q + 1, 0);
    } else {
        lemma_fundamental_div_mod_converse(i + 1, w, q, r + 1);
    }
}

proof fn lemma_last_cell_column(w: int, h: int)
    requires
        1 <= w,
        1 <= h,
    ensures
        (w * h - 1) % w == w - 1,
{
    assert(w * h - 1 == (h - 1) * w + (w - 1)) by (nonlinear_arith);
    lemma_fundamental_div_mod_converse(w * h - 1, w, h - 1, w - 1);
}

/// On well-formed masks, the four shifts of a set of board cells make up exactly
/// the cells next to it.
pub proof fn lemma_shifts_are_neighborhood(s: Set<int>, m: BoardMasks)
    requires
        m.wf(),
        s.subset_of(m.cells()),
    ensures
        shifted_up(s, m).union(shifted_down(s, m)).union(shifted_left(s, m)).union(
            shifted_right(s, m),
        ) =~= neighborhood(s, m.width as int, m.height as int),
{
    let w = m.width as int;
    let h = m.height as int;
    let n = w * h;
    let lhs = shifted_up(s, m).union(shifted_down(s, m)).union(shifted_left(s, m)).union(
        shifted_right(s, m),
    );
    let rhs = neighborhood(s, w, h);
    lemma_last_cell_column(w, h);
    assert forall|i: int| #[trigger] lhs.contains(i) == rhs.contains(i) by {
        if 0 <= i {
            lemma_mod_succ(i, w);
        }
        if 1 <= i {
            lemma_mod_succ(i - 1, w);
        }
        if s.contains(i + 1) {
            assert(m.cells().contains(i + 1));
        }
        if s.contains(i - 1) {
            assert(m.cells().contains(i - 1));
        }
        if s.contains(i + w) {
            assert(m.cells().contains(i + w));
        }
        if s.contains(i - w) {
            assert(m.cells().contains(i - w));
        }
    }
}

impl Bitboard {
    /// The empty set of cells.
    pub fn empty() -> (b: Bitboard)
        ensures
            b@ == Set::<int>::empty(),
            b.0 == 0,
    {
        proof {
            lemma_zero_iff_empty(0);
        }
        Bitboard(0)
    }

    /// The set holding the single cell `(x, y)`.
    pub fn from_coord(x: i32, y: i32, width: u32) -> (b: Bitboard)
        requires
            0 <= x,
            0 <= y,
            cell_index(x as int, y as int, width as int) < 128,
        ensures
            b@ == Set::<int>::empty().insert(cell_index(x as int, y as int, width as int)),
    {
        proof {
            lemma_index_in_word(x as int, y as int, width as int);
        }
        let k = (y as u32) * width + (x as u32);
        proof {
            lemma_bit_single(k as u128);
        }
        let b = Bitboard(1u128 << k);
        assert(b@ =~= Set::<int>::empty().insert(k as int));
        b
    }

    /// The set holding the single cell with index `idx`.
    pub fn from_idx(idx: u32) -> (b: Bitboard)
        requires
            idx < 128,
        ensures
            b@ == Set::<int>::empty().insert(idx as int),
    {
        proof {
            lemma_bit_single(idx as u128);
        }
        let b = Bitboard(1u128 << idx);
        assert(b@ =~= Set::<int>::empty().insert(idx as int));
        b
    }

    /// Adds cell `(x, y)`.
    pub fn set_coord(self, x: i32, y: i32, width: u32) -> (b: Bitboard)
        requires
            0 <= x,
            0 <= y,
            cell_index(x as int, y as int, width as int) < 128,
        ensures
            b@ == self@.insert(cell_index(x as int, y as int, width as int)),
    {
        proof {
            lemma_index_in_word(x as int, y as int, width as int);
        }
        let k = (y as u32) * width + (x as u32);
        self.set_idx(k)
    }

    /// Removes cell `(x, y)`.
    pub fn clear_coord(self, x: i32, y: i32, width: u32) -> (b: Bitboard)
        requires
            0 <= x,
            0 <= y,
            cell_index(x as int, y as int, width as int) < 128,
        ensures
            b@ == self@.remove(cell_index(x as int, y as int, width as int)),
    {
        proof {
            lemma_index_in_word(x as int, y as int, width as int);
        }
        let k = (y as u32) * width + (x as u32);
        self.clear_idx(k)
    }

    /// Whether cell `(x, y)` is in the set.
    pub fn test_coord(self, x: i32, y: i32, width: u32) -> (r: bool)
        requires
            0 <= x,
            0 <= y,
            cell_index(x as int, y as int, width as int) < 128,
        ensures
            r == self@.contains(cell_index(x as int, y as int, width as int)),
    {
        proof {
            lemma_index_in_word(x as int, y as int, width as int);
        }
        let k = (y as u32) * width + (x as u32);
        proof {
            lemma_test_single(self.0, k as u128);
        }
        self.0 & (1u128 << k) != 0
    }

    /// Adds the cell with index `idx`.
    pub fn set_idx(self, idx: u32) -> (b: Bitboard)
        requires
            idx < 128,
        ensures
            b@ == self@.insert(idx as int),
    {
        proof {
            lemma_bit_single(idx as u128);
            lemma_bit_or(self.0, 1u128 << idx);
        }
        let b = Bitboard(self.0 | (1u128 << idx));
        assert(b@ =~= self@.insert(idx as int));
        b
    }

    /// Removes the cell with index `idx`.
    pub fn clear_idx(self, idx: u32) -> (b: Bitboard)
        requires
            idx < 128,
        ensures
            b@ == self@.remove(idx as int),
    {
        proof {
            lemma_bit_single(idx as u128);
            lemma_bit_not(1u128 << idx);
            lemma_bit_and(self.0, !(1u128 << idx));
        }
        let b = Bitboard(self.0 & !(1u128 << idx));
        assert(b@ =~= self@.remove(idx as int));
        b
    }

    /// Whether the cell with index `idx` is in the set.
    pub fn test_idx(self, idx: u32) -> (r: bool)
        requires
            idx < 128,
        ensures
            r == self@.contains(idx as int),
    {
        proof {
            lemma_test_single(self.0, idx as u128);
        }
        (self.0 >> idx) & 1 != 0
    }

    /// The number of cells in the set.
    pub fn popcount(self) -> (r: u32)
        ensures
            r == self@.len(),
            r <= 128,
            self@.finite(),
    {
        proof {
            lemma_bits_finite(self.0);
        }
        count_bits(self.0)
    }

    pub fn is_empty(self) -> (r: bool)
        ensures
            r == (self@ == Set::<int>::empty()),
    {
        proof {
            lemma_zero_iff_empty(self.0);
        }
        self.0 == 0
    }

    pub fn any(self) -> (r: bool)
        ensures
            r == (self@ != Set::<int>::empty()),
    {
        proof {
            lemma_zero_iff_empty(self.0);
        }
        self.0 != 0
    }

    /// Moves every cell one row up; cells leaving the board are dropped.
    pub fn expand_up(self, m: &BoardMasks) -> (b: Bitboard)
        requires
            m.width < 128,
        ensures
            b@ == shifted_up(self@, *m),
    {
        proof {
            lemma_bit_shl(self.0, m.width as u128);
            lemma_bit_and(self.0 << m.width, m.board_mask);
        }
        let b = Bitboard((self.0 << m.width) & m.board_mask);
        assert(b@ =~= shifted_up(self@, *m));
        b
    }

    /// Moves every cell one row down; cells of the bottom row are dropped.
    pub fn expand_down(self, m: &BoardMasks) -> (b: Bitboard)
        requires
            m.width < 128,
        ensures
            b@ == shifted_down(self@, *m),
    {
        proof {
            lemma_bit_shr(self.0, m.width as u128);
        }
        let b = Bitboard(self.0 >> m.width);
        assert(b@ =~= shifted_down(self@, *m));
        b
    }

    /// Moves every cell one column left; cells of the first column are dropped.
    pub fn expand_left(self, m: &BoardMasks) -> (b: Bitboard)
        ensures
            b@ == shifted_left(self@, *m),
    {
        proof {
            lemma_bit_not(m.left_col_mask);
            lemma_bit_and(self.0, !m.left_col_mask);
            lemma_bit_shr(self.0 & !m.left_col_mask, 1);
        }
        let b = Bitboard((self.0 & !m.left_col_mask) >> 1u32);
        assert(b@ =~= shifted_left(self@, *m));
        b
    }

    /// Moves every cell one column right; cells of the last column are dropped.
    pub fn expand_right(self, m: &BoardMasks) -> (b: Bitboard)
        ensures
            b@ == shifted_right(self@, *m),
    {
        proof {
            lemma_bit_not(m.right_col_mask);
            lemma_bit_and(self.0, !m.right_col_mask);
            lemma_bit_shl(self.0 & !m.right_col_mask, 1);
        }
        let b = Bitboard((self.0 & !m.right_col_mask) << 1u32);
        assert(b@ =~= shifted_right(self@, *m));
        b
    }

    /// The cells one step away from the set in any direction.
    pub fn expand(self, m: &BoardMasks) -> (b: Bitboard)
        requires
            m.width < 128,
        ensures
            b@ == shifted_up(self@, *m).union(shifted_down(self@, *m)).union(
                shifted_left(self@, *m),
            ).union(shifted_right(self@, *m)),
            m.wf() && self@.subset_of(m.cells()) ==> b@ == neighborhood(
                self@,
                m.width as int,
                m.height as int,
            ),
    {
        let u = self.expand_up(m);
        let d = self.expand_down(m);
        let l = self.expand_left(m);
        let r = self.expand_right(m);
        proof {
            lemma_bit_or(u.0, d.0);
            lemma_bit_or(u.0 | d.0, l.0);
            lemma_bit_or(u.0 | d.0 | l.0, r.0);
        }
        let b = Bitboard(u.0 | d.0 | l.0 | r.0);
        assert(b@ =~= u@.union(d@).union(l@).union(r@));
        proof {
            if m.wf() && self@.subset_of(m.cells()) {
                lemma_shifts_are_neighborhood(self@, *m);
            }
        }
        b
    }

    /// The cells reachable from this set through cells of the board that are not
    /// `blocked`, moving between neighbouring cells.
    pub fn flood_fill(self, blocked: Bitboard, m: &BoardMasks) -> (b: Bitboard)
        requires
            m.wf(),
            m.width < 128,
        ensures
            b@ == reachable(self@, m.cells().difference(blocked@), m.width as int, m.height as int),
    {
        let ghost w = m.width as int;
        let ghost h = m.height as int;
        let open = Bitboard(m.board_mask & !blocked.0);
        let ghost open_set = m.cells().difference(blocked@);
        proof {
            lemma_bit_not(blocked.0);
            lemma_bit_and(m.board_mask, !blocked.0);
            assert(open@ =~= open_set);
            lemma_bit_and(self.0, open.0);
        }
        let mut curr = Bitboard(self.0 & open.0);
        assert(curr@ =~= flood_iter(self@, open_set, w, h, 0));
        proof {
            lemma_and_idempotent(self.0, open.0);
            assert(open@.subset_of(m.cells()));
        }
        let ghost mut k: nat = 0;
        let mut next = Self::fill_round(curr, open, m);
        while next.0 != curr.0
            invariant
                m.wf(),
                m.width < 128,
                w == m.width,
                h == m.height,
                open@ == open_set,
                open_set == m.cells().difference(blocked@),
                curr@ == flood_iter(self@, open_set, w, h, k),
                next@ == flood_step(curr@, open_set, w, h),
                next.0 & curr.0 == curr.0,
                curr.0 & open.0 == curr.0,
                next.0 & open.0 == next.0,
                open@.subset_of(m.cells()),
            decreases u128::MAX - curr.0,
        {
            proof {
                lemma_superset_greater(next.0, curr.0);
                k = k + 1;
            }
            curr = next;
            next = Self::fill_round(curr, open, m);
        }
        proof {
            lemma_bits_injective_eq(next.0, curr.0);
            lemma_fixpoint_is_reachable(self@, open_set, w, h, k);
        }
        curr
    }

    /// One round of flood fill: `curr`, grown by one step, inside `open`.
    pub(crate) fn fill_round(curr: Bitboard, open: Bitboard, m: &BoardMasks) -> (next: Bitboard)
        requires
            m.wf(),
            m.width < 128,
            curr.0 & open.0 == curr.0,
            open@.subset_of(m.cells()),
        ensures
            next@ == flood_step(curr@, open@, m.width as int, m.height as int),
            next.0 & curr.0 == curr.0,
            next.0 & open.0 == next.0,
    {
        proof {
            lemma_bit_and(curr.0, open.0);
            assert(curr@.subset_of(m.cells()));
        }
        let e = curr.expand(m);
        let next = Bitboard((e.0 | curr.0) & open.0);
        proof {
            lemma_bit_or(e.0, curr.0);
            lemma_bit_and(e.0 | curr.0, open.0);
            assert(next@ =~= flood_step(curr@, open@, m.width as int, m.height as int));
            lemma_round_facts(e.0, curr.0, open.0);
        }
        next
    }

    /// The flood fill of `flood_fill`, and whether it reaches a cell of `target`.
    pub fn flood_fill_with_target(self, blocked: Bitboard, target: Bitboard, m: &BoardMasks) -> (r: (
        Bitboard,
        bool,
    ))
        requires
            m.wf(),
            m.width < 128,
        ensures
            r.0@ == reachable(self@, m.cells().difference(blocked@), m.width as int, m.height as int),
            r.1 == (r.0@.intersect(target@) != Set::<int>::empty()),
    {
        let curr = self.flood_fill(blocked, m);
        proof {
            lemma_bit_and(curr.0, target.0);
            lemma_zero_iff_empty(curr.0 & target.0);
            assert(bits(curr.0 & target.0) =~= curr@.intersect(target@));
        }
        let has_target = (curr.0 & target.0) != 0;
        (curr, has_target)
    }
}

/// What a read gives back of a write: after `set_idx(i)` (whose result is
/// `b@.insert(i)`) cell `i` reads as present, after `clear_idx(i)` (whose result is
/// `b@.remove(i)`) as absent, and every other cell reads as before either way.
pub proof fn lemma_read_after_write(b: Bitboard, i: int, j: int)
    ensures
        b@.insert(i).contains(i),
        !b@.remove(i).contains(i),
        j != i ==> b@.insert(i).contains(j) == b@.contains(j),
        j != i ==> b@.remove(i).contains(j) == b@.contains(j),
{
}

/// Every round of a flood fill stays inside the open cells.
pub proof fn lemma_flood_iter_open(seed: Set<int>, open: Set<int>, w: int, h: int, k: nat)
    ensures
        flood_iter(seed, open, w, h, k).subset_of(open),
    decreases k,
{
    if k > 0 {
        lemma_flood_iter_open(seed, open, w, h, (k - 1) as nat);
    }
}

/// A flood fill only grows: what `a` rounds reach, `b >= a` rounds reach too.
pub proof fn lemma_flood_iter_monotone(seed: Set<int>, open: Set<int>, w: int, h: int, a: nat, b: nat)
    requires
        a <= b,
    ensures
        flood_iter(seed, open, w, h, a).subset_of(flood_iter(seed, open, w, h, b)),
    decreases b - a,
{
    if a < b {
        lemma_flood_iter_monotone(seed, open, w, h, a, (b - 1) as nat);
        lemma_flood_iter_open(seed, open, w, h, (b - 1) as nat);
    }
}

/// Once a round adds nothing, no later round adds anything.
pub proof fn lemma_flood_iter_stable(seed: Set<int>, open: Set<int>, w: int, h: int, k: nat, j: nat)
    requires
        k <= j,
        flood_step(flood_iter(seed, open, w, h, k), open, w, h) == flood_iter(seed, open, w, h, k),
    ensures
        flood_iter(seed, open, w, h, j) == flood_iter(seed, open, w, h, k),
    decreases j - k,
{
    if k < j {
        lemma_flood_iter_stable(seed, open, w, h, k, (j - 1) as nat);
    }
}

/// A round that adds nothing has reached every reachable cell.
pub proof fn lemma_fixpoint_is_reachable(seed: Set<int>, open: Set<int>, w: int, h: int, k: nat)
    requires
        flood_step(flood_iter(seed, open, w, h, k), open, w, h) == flood_iter(seed, open, w, h, k),
    ensures
        reachable(seed, open, w, h) == flood_iter(seed, open, w, h, k),
{
    let r = flood_iter(seed, open, w, h, k);
    assert forall|i: int| #[trigger] reachable(seed, open, w, h).contains(i) == r.contains(i) by {
        if reachable(seed, open, w, h).contains(i) {
            let j = choose|j: nat| #[trigger] flood_iter(seed, open, w, h, j).contains(i);
            if j <= k {
                lemma_flood_iter_monotone(seed, open, w, h, j, k);
            } else {
                lemma_flood_iter_stable(seed, open, w, h, k, j);
            }
        }
        if r.contains(i) {
            assert(flood_iter(seed, open, w, h, k).contains(i));
        }
    }
    assert(reachable(seed, open, w, h) =~= r);
}

/// The reachable cells include the open seed cells, stay in the open cells, and are
/// closed under moving to an open neighbour.
pub proof fn lemma_reachable_closed(seed: Set<int>, open: Set<int>, w: int, h: int, k: nat)
    requires
        flood_step(flood_iter(seed, open, w, h, k), open, w, h) == flood_iter(seed, open, w, h, k),
    ensures
        seed.intersect(open).subset_of(reachable(seed, open, w, h)),
        reachable(seed, open, w, h).subset_of(open),
        neighborhood(reachable(seed, open, w, h), w, h).intersect(open).subset_of(
            reachable(seed, open, w, h),
        ),
{
    lemma_fixpoint_is_reachable(seed, open, w, h, k);
    lemma_flood_iter_monotone(seed, open, w, h, 0, k);
    lemma_flood_iter_open(seed, open, w, h, k);
}

/// An open neighbour of a reachable cell is reachable: it is reached one round
/// after that cell.
pub proof fn lemma_reachable_open_neighbors(seed: Set<int>, open: Set<int>, w: int, h: int)
    ensures
        neighborhood(reachable(seed, open, w, h), w, h).intersect(open).subset_of(
            reachable(seed, open, w, h),
        ),
{
    let r = reachable(seed, open, w, h);
    assert forall|n: int| #[trigger] neighborhood(r, w, h).intersect(open).contains(n) implies r.contains(n) by {
        let c = if n >= w && r.contains(n - w) {
            n - w
        } else if n + w < w * h && r.contains(n + w) {
            n + w
        } else if n % w != 0 && r.contains(n - 1) {
            n - 1
        } else {
            n + 1
        };
        assert(r.contains(c));
        let k = choose|k: nat| #[trigger] flood_iter(seed, open, w, h, k).contains(c);
        let fk = flood_iter(seed, open, w, h, k);
        assert(neighborhood(fk, w, h).contains(n));
        assert(flood_iter(seed, open, w, h, k + 1).contains(n));
    }
}

proof fn lemma_index_in_word(x: int, y: int, w: int)
    requires
        0 <= x,
        0 <= y,
        0 <= w,
        y * w + x < 128,
    ensures
        0 <= y * w,
        y * w + x <= u32::MAX,
{
    assert(0 <= y * w) by (nonlinear_arith)
        requires
            0 <= y,
            0 <= w,
    ;
}

} // verus!

verus! {

/// Cell `c` is first reached in round `k` of a flood fill.
pub open spec fn in_layer(seed: Set<int>, open: Set<int>, w: int, h: int, c: int, k: nat) -> bool {
    flood_iter(seed, open, w, h, k).contains(c) && (k == 0 || !flood_iter(seed, open, w, h, (k - 1) as nat).contains(c))
}

/// The distance from `seed` to `c` through `open` (the round of the flood fill that
/// first reaches `c`), or `i32::MAX` when `c` is not reachable.
pub open spec fn bfs_dist(seed: Set<int>, open: Set<int>, w: int, h: int, c: int) -> int {
    if reachable(seed, open, w, h).contains(c) {
        (choose|k: nat| in_layer(seed, open, w, h, c, k)) as int
    } else {
        i32::MAX as int
    }
}

/// A cell is first reached in one round only.
pub proof fn lemma_layer_unique(seed: Set<int>, open: Set<int>, w: int, h: int, c: int, a: nat, b: nat)
    requires
        in_layer(seed, open, w, h, c, a),
        in_layer(seed, open, w, h, c, b),
    ensures
        a == b,
{
    if a < b {
        lemma_flood_iter_monotone(seed, open, w, h, a, (b - 1) as nat);
    } else if b < a {
        lemma_flood_iter_monotone(seed, open, w, h, b, (a - 1) as nat);
    }
}

/// A cell first reached in round `k` is at distance `k`.
pub proof fn lemma_dist_of_layer(seed: Set<int>, open: Set<int>, w: int, h: int, c: int, k: nat)
    requires
        in_layer(seed, open, w, h, c, k),
    ensures
        bfs_dist(seed, open, w, h, c) == k,
{
    assert(reachable(seed, open, w, h).contains(c));
    let l = choose|l: nat| in_layer(seed, open, w, h, c, l);
    lemma_layer_unique(seed, open, w, h, c, k, l);
}

/// The distance of every cell of the board from `seeds` through `open`, by
/// growing the reached region one round at a time.
pub(crate) fn layer_distances(seeds: Bitboard, open: Bitboard, m: &BoardMasks) -> (dist: Vec<i32>)
    requires
        m.wf(),
        m.width < 128,
        open@.subset_of(m.cells()),
    ensures
        dist.len() == m.width * m.height,
        forall|c: int|
            0 <= c < m.width * m.height ==> #[trigger] dist@[c] == bfs_dist(seeds@, open@, m.width as int, m.height as int, c),
        forall|c: int| 0 <= c < m.width * m.height ==> #[trigger] dist@[c] == i32::MAX || 0 <= dist@[c] <= 128,
        forall|c: int|
            0 <= c < m.width * m.height && #[trigger] reachable(seeds@, open@, m.width as int, m.height as int).contains(c)
                ==> 0 <= dist@[c] <= 128,
{
    let ghost w = m.width as int;
    let ghost h = m.height as int;
    let n = (m.width * m.height) as usize;
    let mut dist: Vec<i32> = vec![i32::MAX; n];
    proof {
        lemma_bit_and(seeds.0, open.0);
        lemma_and_idempotent(seeds.0, open.0);
    }
    let mut curr = Bitboard(seeds.0 & open.0);
    assert(curr@ =~= flood_iter(seeds@, open@, w, h, 0));
    let mut c: usize = 0;
    while c < n
        invariant
            n == m.width * m.height,
            n <= 128,
            c <= n,
            dist.len() == n,
            curr@ == flood_iter(seeds@, open@, w, h, 0),
            forall|j: int|
                0 <= j < n ==> #[trigger] dist@[j] == (if j < c && curr@.contains(j) {
                    0
                } else {
                    i32::MAX
                }),
        decreases n - c,
    {
        if curr.test_idx(c as u32) {
            dist.set(c, 0);
        }
        c += 1;
    }
    let mut k: i32 = 0;
    let mut next = Bitboard::fill_round(curr, open, m);
    proof {
        lemma_bits_finite(curr.0);
        vstd::set_lib::lemma_int_range(0, 128);
        vstd::set_lib::lemma_len_subset(curr@, vstd::set_lib::set_int_range(0, 128));
    }
    while next.0 != curr.0
        invariant
            m.wf(),
            m.width < 128,
            w == m.width,
            h == m.height,
            n == m.width * m.height,
            n <= 128,
            open@.subset_of(m.cells()),
            dist.len() == n,
            0 <= k <= curr@.len(),
            curr@.len() <= 128,
            curr@.finite(),
            curr@ == flood_iter(seeds@, open@, w, h, k as nat),
            next@ == flood_step(curr@, open@, w, h),
            next.0 & curr.0 == curr.0,
            curr.0 & open.0 == curr.0,
            next.0 & open.0 == next.0,
            forall|j: int|
                0 <= j < n ==> (if curr@.contains(j) {
                    0 <= #[trigger] dist@[j] <= k && in_layer(seeds@, open@, w, h, j, dist@[j] as nat)
                } else {
                    dist@[j] == i32::MAX
                }),
        decreases u128::MAX - curr.0,
    {
        proof {
            lemma_superset_greater(next.0, curr.0);
            lemma_bits_finite(next.0);
            lemma_bit_and(next.0, curr.0);
            assert(curr@.subset_of(next@));
            if curr@ == next@ {
                lemma_bits_injective(next.0, curr.0);
            }
            if !(exists|e: int| next@.contains(e) != curr@.contains(e)) {
                assert(curr@ =~= next@);
            }
            let e = choose|e: int| next@.contains(e) != curr@.contains(e);
            assert(!curr@.contains(e));
            vstd::set_lib::lemma_int_range(0, 128);
            vstd::set_lib::lemma_len_subset(next@, vstd::set_lib::set_int_range(0, 128));
            vstd::set_lib::lemma_len_subset(curr@.insert(e), next@);
        }
        let ghost prev = curr@;
        let ghost kk = k as nat;
        k = k + 1;
        let mut c: usize = 0;
        while c < n
            invariant
                m.wf(),
                n == m.width * m.height,
                n <= 128,
                c <= n,
                dist.len() == n,
                1 <= k,
                k <= 128,
                curr@ == prev,
                prev == flood_iter(seeds@, open@, w, h, (k - 1) as nat),
                next@ == flood_iter(seeds@, open@, w, h, k as nat),
                open@.subset_of(m.cells()),
                forall|j: int|
                    0 <= j < n ==> (if prev.contains(j) {
                        0 <= #[trigger] dist@[j] <= k - 1 && in_layer(seeds@, open@, w, h, j, dist@[j] as nat)
                    } else if j < c && next@.contains(j) {
                        dist@[j] == k && in_layer(seeds@, open@, w, h, j, k as nat)
                    } else {
                        dist@[j] == i32::MAX
                    }),
            decreases n - c,
        {
            if next.test_idx(c as u32) && !curr.test_idx(c as u32) {
                dist.set(c, k);
            }
            c += 1;
        }
        curr = next;
        next = Bitboard::fill_round(curr, open, m);
        assert forall|j: int|
            0 <= j < n implies (if curr@.contains(j) {
                0 <= #[trigger] dist@[j] <= k && in_layer(seeds@, open@, w, h, j, dist@[j] as nat)
            } else {
                dist@[j] == i32::MAX
            }) by {
            if prev.contains(j) {
                assert(curr@.contains(j));
            }
        }
    }
    proof {
        lemma_bits_injective_eq(next.0, curr.0);
        lemma_fixpoint_is_reachable(seeds@, open@, w, h, k as nat);
        assert forall|j: int| 0 <= j < n implies #[trigger] dist@[j] == bfs_dist(seeds@, open@, w, h, j) by {
            if curr@.contains(j) {
                lemma_dist_of_layer(seeds@, open@, w, h, j, dist@[j] as nat);
            }
        }
        assert forall|j: int| 0 <= j < n implies #[trigger] dist@[j] == i32::MAX || 0 <= dist@[j] <= 128 by {
            if curr@.contains(j) {
                assert(dist@[j] <= k);
            }
        }
        assert forall|j: int| 0 <= j < n && #[trigger] reachable(seeds@, open@, w, h).contains(j) implies 0 <= dist@[j]
            <= 128 by {
            assert(curr@.contains(j));
            assert(dist@[j] <= k);
        }
    }
    dist
}

} // verus!

verus! {

impl core::ops::BitOr for Bitboard {
    type Output = Self;

    fn bitor(self, rhs: Self) -> (r: Self)
        ensures
            r.0 == self.0 | rhs.0,
            r@ == self@.union(rhs@),
    {
        proof {
            lemma_bit_or(self.0, rhs.0);
        }
        let r = Bitboard(self.0 | rhs.0);
        assert(r@ =~= self@.union(rhs@));
        r
    }
}

impl vstd::std_specs::ops::BitOrSpecImpl for Bitboard {
    open spec fn obeys_bitor_spec() -> bool {
        true
    }

    open spec fn bitor_req(self, rhs: Self) -> bool {
        true
    }

    open spec fn bitor_spec(self, rhs: Self) -> Self {
        Bitboard(self.0 | rhs.0)
    }
}

impl core::ops::BitAnd for Bitboard {
    type Output = Self;

    fn bitand(self, rhs: Self) -> (r: Self)
        ensures
            r.0 == self.0 & rhs.0,
            r@ == self@.intersect(rhs@),
    {
        proof {
            lemma_bit_and(self.0, rhs.0);
        }
        let r = Bitboard(self.0 & rhs.0);
        assert(r@ =~= self@.intersect(rhs@));
        r
    }
}

impl vstd::std_specs::ops::BitAndSpecImpl for Bitboard {
    open spec fn obeys_bitand_spec() -> bool {
        true
    }

    open spec fn bitand_req(self, rhs: Self) -> bool {
        true
    }

    open spec fn bitand_spec(self, rhs: Self) -> Self {
        Bitboard(self.0 & rhs.0)
    }
}

impl core::ops::BitXor for Bitboard {
    type Output = Self;

    fn bitxor(self, rhs: Self) -> (r: Self)
        ensures
            r.0 == self.0 ^ rhs.0,
            r@ == self@.difference(rhs@).union(rhs@.difference(self@)),
    {
        proof {
            crate::bits::lemma_bit_xor(self.0, rhs.0);
        }
        let r = Bitboard(self.0 ^ rhs.0);
        assert(r@ =~= self@.difference(rhs@).union(rhs@.difference(self@)));
        r
    }
}

impl vstd::std_specs::ops::BitXorSpecImpl for Bitboard {
    open spec fn obeys_bitxor_spec() -> bool {
        true
    }

    open spec fn bitxor_req(self, rhs: Self) -> bool {
        true
    }

    open spec fn bitxor_spec(self, rhs: Self) -> Self {
        Bitboard(self.0 ^ rhs.0)
    }
}

impl core::ops::Not for Bitboard {
    type Output = Self;

    fn not(self) -> (r: Self)
        ensures
            r.0 == !self.0,
            r@ == vstd::set_lib::set_int_range(0, 128).difference(self@),
    {
        proof {
            lemma_bit_not(self.0);
        }
        let r = Bitboard(!self.0);
        assert(r@ =~= vstd::set_lib::set_int_range(0, 128).difference(self@));
        r
    }
}

impl vstd::std_specs::ops::NotSpecImpl for Bitboard {
    open spec fn obeys_not_spec() -> bool {
        true
    }

    open spec fn not_req(self) -> bool {
        true
    }

    open spec fn not_spec(self) -> Self {
        Bitboard(!self.0)
    }
}

impl core::ops::BitOrAssign for Bitboard {
    fn bitor_assign(&mut self, rhs: Self)
        ensures
            final(self).0 == old(self).0 | rhs.0,
    {
        self.0 = self.0 | rhs.0;
    }
}

impl core::ops::BitAndAssign for Bitboard {
    fn bitand_assign(&mut self, rhs: Self)
        ensures
            final(self).0 == old(self).0 & rhs.0,
    {
        self.0 = self.0 & rhs.0;
    }
}

} // verus!
