//! Bit-level facts about 128-bit words, read as sets of cell indices.
use vstd::prelude::*;

verus! {

/// Whether bit `i` of `x` is set (only the 128 positions of the word count).
pub open spec fn bit(x: u128, i: int) -> bool {
    0 <= i < 128 && (x >> (i as u128)) & 1u128 == 1u128
}

/// The set of positions whose bit is set.
pub open spec fn bits(x: u128) -> Set<int> {
    Set::new(|i: int| bit(x, i))
}

/// The positions below `k` whose bit is set.
pub open spec fn bits_below(x: u128, k: int) -> Set<int> {
    Set::new(|i: int| i < k && bit(x, i))
}

proof fn bv_or(a: u128, b: u128, i: u128)
    by (bit_vector)
    requires
        i < 128,
    ensures
        ((a | b) >> i) & 1 == 1 <==> ((a >> i) & 1 == 1 || (b >> i) & 1 == 1),
{
}

proof fn bv_and(a: u128, b: u128, i: u128)
    by (bit_vector)
    requires
        i < 128,
    ensures
        ((a & b) >> i) & 1 == 1 <==> ((a >> i) & 1 == 1 && (b >> i) & 1 == 1),
{
}

proof fn bv_xor(a: u128, b: u128, i: u128)
    by (bit_vector)
    requires
        i < 128,
    ensures
        ((a ^ b) >> i) & 1 == 1 <==> ((a >> i) & 1 == 1) != ((b >> i) & 1 == 1),
{
}

proof fn bv_not(a: u128, i: u128)
    by (bit_vector)
    requires
        i < 128,
    ensures
        ((!a) >> i) & 1 == 1 <==> !((a >> i) & 1 == 1),
{
}

proof fn bv_shl(a: u128, k: u128, i: u128)
    by (bit_vector)
    requires
        i < 128,
        k < 128,
    ensures
        ((a << k) >> i) & 1 == 1 <==> (i >= k && (a >> ((i - k) as u128)) & 1 == 1),
{
}

proof fn bv_shr(a: u128, k: u128, i: u128)
    by (bit_vector)
    requires
        i < 128,
        k < 128,
    ensures
        ((a >> k) >> i) & 1 == 1 <==> (i + k < 128 && (a >> ((i + k) as u128)) & 1 == 1),
{
}

proof fn bv_single(k: u128, i: u128)
    by (bit_vector)
    requires
        i < 128,
        k < 128,
    ensures
        ((1u128 << k) >> i) & 1 == 1 <==> i == k,
{
}

proof fn bv_zero(i: u128)
    by (bit_vector)
    requires
        i < 128,
    ensures
        !((0u128 >> i) & 1 == 1),
{
}

proof fn bv_max(i: u128)
    by (bit_vector)
    requires
        i < 128,
    ensures
        ((!0u128) >> i) & 1 == 1,
{
}

proof fn bv_low(n: u128, i: u128)
    by (bit_vector)
    requires
        i < 128,
        n < 128,
    ensures
        ((((1u128 << n) - 1) as u128) >> i) & 1 == 1 <==> i < n,
{
}

proof fn bv_low_step(x: u128, k: u128)
    by (bit_vector)
    requires
        k < 127,
        x & (!(!0u128 << k)) == 0,
        (x >> k) & 1 == 0,
    ensures
        x & (!(!0u128 << (k + 1))) == 0,
{
}

proof fn bv_low_last(x: u128)
    by (bit_vector)
    requires
        x & (!(!0u128 << 127u128)) == 0,
        (x >> 127u128) & 1 == 0,
    ensures
        x == 0,
{
}

proof fn bv_low_zero(x: u128)
    by (bit_vector)
    ensures
        x & (!(!0u128 << 0u128)) == 0,
{
}

proof fn bv_bit_values(x: u128, i: u128)
    by (bit_vector)
    requires
        i < 128,
    ensures
        (x >> i) & 1 == 0 || (x >> i) & 1 == 1,
{
}

proof fn bv_single_pos(n: u128)
    by (bit_vector)
    requires
        n < 128,
    ensures
        (1u128 << n) >= 1,
{
}

/// A single set bit below position 128 gives a positive word.
pub proof fn lemma_single_positive(n: u128)
    requires
        n < 128,
    ensures
        (1u128 << n) >= 1,
{
    bv_single_pos(n);
}

proof fn bv_test_single(a: u128, k: u128)
    by (bit_vector)
    requires
        k < 128,
    ensures
        (a & (1u128 << k)) != 0 <==> (a >> k) & 1 == 1,
        (a >> k) & 1 != 0 <==> (a >> k) & 1 == 1,
{
}

/// Testing a word against a single bit reads that bit.
pub proof fn lemma_test_single(a: u128, k: u128)
    requires
        k < 128,
    ensures
        ((a & (1u128 << k)) != 0) == bit(a, k as int),
        ((a >> k) & 1 != 0) == bit(a, k as int),
{
    bv_test_single(a, k);
}

/// A word is zero exactly when it has no set bit.
pub proof fn lemma_zero_iff_empty(x: u128)
    ensures
        (x == 0) == (bits(x) =~= Set::<int>::empty()),
{
    lemma_bit_zero();
    if bits(x) =~= Set::<int>::empty() {
        assert forall|i: int| !#[trigger] bit(x, i) by {
            assert(!bits(x).contains(i));
        }
        lemma_no_bits_zero(x);
    }
}

/// Words with the same set of positions are equal.
pub proof fn lemma_bits_injective(a: u128, b: u128)
    requires
        bits(a) == bits(b),
    ensures
        a == b,
{
    assert forall|i: int| #[trigger] bit(a, i) == bit(b, i) by {
        assert(bits(a).contains(i) == bits(b).contains(i));
        assert(bits(a).contains(i) == bit(a, i));
        assert(bits(b).contains(i) == bit(b, i));
    }
    lemma_bits_ext(a, b);
}

/// Equal words have equal views (and the converse holds by `lemma_bits_injective`).
pub proof fn lemma_bits_injective_eq(a: u128, b: u128)
    requires
        a == b,
    ensures
        bits(a) == bits(b),
{
}

proof fn bv_and_idem(a: u128, b: u128)
    by (bit_vector)
    ensures
        (a & b) & b == a & b,
{
}

/// Masking twice with the same word is masking once.
pub proof fn lemma_and_idempotent(a: u128, b: u128)
    ensures
        (a & b) & b == a & b,
{
    bv_and_idem(a, b);
}

proof fn bv_round(e: u128, c: u128, o: u128)
    by (bit_vector)
    requires
        c & o == c,
    ensures
        ((e | c) & o) & c == c,
        ((e | c) & o) & o == (e | c) & o,
{
}

/// A flood round keeps the cells it started from and stays in the open cells.
pub proof fn lemma_round_facts(e: u128, c: u128, o: u128)
    requires
        c & o == c,
    ensures
        ((e | c) & o) & c == c,
        ((e | c) & o) & o == (e | c) & o,
{
    bv_round(e, c, o);
}

/// A word whose bits include those of `c` and differ from it is larger than `c`.
pub proof fn lemma_superset_greater(n: u128, c: u128)
    by (bit_vector)
    requires
        n & c == c,
        n != c,
    ensures
        n > c,
{
}

pub proof fn lemma_bit_or(a: u128, b: u128)
    ensures
        forall|i: int| #[trigger] bit(a | b, i) == (bit(a, i) || bit(b, i)),
{
    assert forall|i: int| #[trigger] bit(a | b, i) == (bit(a, i) || bit(b, i)) by {
        if 0 <= i < 128 {
            bv_or(a, b, i as u128);
        }
    }
}

pub proof fn lemma_bit_and(a: u128, b: u128)
    ensures
        forall|i: int| #[trigger] bit(a & b, i) == (bit(a, i) && bit(b, i)),
{
    assert forall|i: int| #[trigger] bit(a & b, i) == (bit(a, i) && bit(b, i)) by {
        if 0 <= i < 128 {
            bv_and(a, b, i as u128);
        }
    }
}

pub proof fn lemma_bit_xor(a: u128, b: u128)
    ensures
        forall|i: int| #[trigger] bit(a ^ b, i) == (0 <= i < 128 && bit(a, i) != bit(b, i)),
{
    assert forall|i: int| #[trigger] bit(a ^ b, i) == (0 <= i < 128 && bit(a, i) != bit(b, i)) by {
        if 0 <= i < 128 {
            bv_xor(a, b, i as u128);
        }
    }
}

pub proof fn lemma_bit_not(a: u128)
    ensures
        forall|i: int| #[trigger] bit(!a, i) == (0 <= i < 128 && !bit(a, i)),
{
    assert forall|i: int| #[trigger] bit(!a, i) == (0 <= i < 128 && !bit(a, i)) by {
        if 0 <= i < 128 {
            bv_not(a, i as u128);
        }
    }
}

pub proof fn lemma_bit_shl(a: u128, k: u128)
    requires
        k < 128,
    ensures
        forall|i: int| #[trigger] bit(a << k, i) == (0 <= i < 128 && i >= k && bit(a, i - k)),
{
    assert forall|i: int| #[trigger] bit(a << k, i) == (0 <= i < 128 && i >= k && bit(a, i - k)) by {
        if 0 <= i < 128 {
            bv_shl(a, k, i as u128);
        }
    }
}

pub proof fn lemma_bit_shr(a: u128, k: u128)
    requires
        k < 128,
    ensures
        forall|i: int| #[trigger] bit(a >> k, i) == (0 <= i && bit(a, i + k)),
{
    assert forall|i: int| #[trigger] bit(a >> k, i) == (0 <= i && bit(a, i + k)) by {
        if 0 <= i < 128 {
            bv_shr(a, k, i as u128);
        }
    }
}

pub proof fn lemma_bit_single(k: u128)
    requires
        k < 128,
    ensures
        forall|i: int| #[trigger] bit(1u128 << k, i) == (i == k),
{
    assert forall|i: int| #[trigger] bit(1u128 << k, i) == (i == k) by {
        if 0 <= i < 128 {
            bv_single(k, i as u128);
        }
    }
}

pub proof fn lemma_bit_zero()
    ensures
        forall|i: int| !#[trigger] bit(0u128, i),
{
    assert forall|i: int| !#[trigger] bit(0u128, i) by {
        if 0 <= i < 128 {
            bv_zero(i as u128);
        }
    }
}

pub proof fn lemma_bit_max()
    ensures
        forall|i: int| #[trigger] bit(!0u128, i) == (0 <= i < 128),
{
    assert forall|i: int| #[trigger] bit(!0u128, i) == (0 <= i < 128) by {
        if 0 <= i < 128 {
            bv_max(i as u128);
        }
    }
}

pub proof fn lemma_bit_low(n: u128)
    requires
        n < 128,
    ensures
        forall|i: int| #[trigger] bit(((1u128 << n) - 1) as u128, i) == (0 <= i < n),
{
    assert forall|i: int| #[trigger] bit(((1u128 << n) - 1) as u128, i) == (0 <= i < n) by {
        if 0 <= i < 128 {
            bv_low(n, i as u128);
        }
    }
}

proof fn lemma_low_bits_zero(x: u128, k: u128)
    requires
        k <= 127,
        forall|i: int| !#[trigger] bit(x, i),
    ensures
        x & !(!0u128 << k) == 0,
    decreases k,
{
    if k == 0 {
        bv_low_zero(x);
    } else {
        let j = (k - 1) as u128;
        lemma_low_bits_zero(x, j);
        assert(!bit(x, j as int));
        bv_bit_values(x, j);
        bv_low_step(x, j);
    }
}

/// A word with no set bit is zero.
pub proof fn lemma_no_bits_zero(x: u128)
    requires
        forall|i: int| !#[trigger] bit(x, i),
    ensures
        x == 0,
{
    lemma_low_bits_zero(x, 127);
    assert(!bit(x, 127));
    bv_bit_values(x, 127);
    bv_low_last(x);
}

/// Words with the same set bits are equal.
pub proof fn lemma_bits_ext(a: u128, b: u128)
    requires
        forall|i: int| #[trigger] bit(a, i) == bit(b, i),
    ensures
        a == b,
{
    lemma_bit_xor(a, b);
    lemma_no_bits_zero(a ^ b);
    assert(a == b) by (bit_vector)
        requires
            a ^ b == 0,
    ;
}

/// The view of a word is a finite set of positions in `0..128`.
pub proof fn lemma_bits_finite(x: u128)
    ensures
        bits(x).finite(),
        bits(x).subset_of(vstd::set_lib::set_int_range(0, 128)),
{
    vstd::set_lib::lemma_int_range(0, 128);
    vstd::set_lib::lemma_set_subset_finite(vstd::set_lib::set_int_range(0, 128), bits(x));
}

/// The number of set bits of `x`.
pub fn count_bits(x: u128) -> (r: u32)
    ensures
        r == bits(x).len(),
        r <= 128,
{
    let mut c: u32 = 0;
    let mut i: u32 = 0;
    proof {
        vstd::set_lib::lemma_int_range(0, 0);
        assert(bits_below(x, 0) =~= Set::empty());
    }
    while i < 128
        invariant
            i <= 128,
            c <= i,
            bits_below(x, i as int).finite(),
            c == bits_below(x, i as int).len(),
        decreases 128 - i,
    {
        let ghost prev = bits_below(x, i as int);
        if (x >> i) & 1 == 1 {
            assert(bits_below(x, i + 1) =~= prev.insert(i as int));
            c = c + 1;
        } else {
            assert(bits_below(x, i + 1) =~= prev);
        }
        i = i + 1;
    }
    assert(bits_below(x, 128) =~= bits(x));
    c
}

} // verus!
