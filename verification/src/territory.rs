//! Territory by racing: every snake spreads from its head one cell per round, and a
//! cell belongs to the one snake that reaches it first, or is contested when
//! several reach it in the same round.
use vstd::prelude::*;
use crate::bitboard::{flood_iter, flood_step, neighborhood, in_layer, lemma_flood_iter_open, lemma_flood_iter_monotone};
use crate::board::count_where;
use crate::heuristic::passable;
use crate::simulator::{SimState, MAX_SNAKES};
use crate::bitboard::Bitboard;
use crate::bits::{bit, bits, lemma_bit_and, lemma_bit_not, lemma_bit_or};

verus! {

/// The starting cell of snake `i` in the race: its head, if it is alive and in play.
pub open spec fn head_seed(st: SimState, i: int) -> Set<int> {
    if 0 <= i < st.num_snakes && st.snakes[i].alive {
        Set::empty().insert(st.snakes[i].seg(0) as int)
    } else {
        Set::empty()
    }
}

/// The starting cells of all snakes.
pub open spec fn head_seeds(st: SimState) -> Set<int> {
    Set::new(|p: int| exists|i: int| 0 <= i < st.num_snakes && #[trigger] head_seed(st, i).contains(p))
}

/// The cells a flood from `seed` through the passable cells reaches in `k` rounds.
pub open spec fn spread(st: SimState, seed: Set<int>, k: nat) -> Set<int> {
    flood_iter(seed, passable(st), st.width as int, st.height as int, k)
}

/// Cell `c` is first reached by the race in round `s`.
pub open spec fn race_layer(st: SimState, c: int, s: nat) -> bool {
    in_layer(head_seeds(st), passable(st), st.width as int, st.height as int, c, s)
}

/// Snake `i` is among the first to reach cell `c`, in round `s`.
pub open spec fn first_to(st: SimState, i: int, c: int, s: nat) -> bool {
    in_layer(head_seed(st, i), passable(st), st.width as int, st.height as int, c, s) && race_layer(st, c, s)
}

/// The cells snake `i` is among the first to reach, in round `s`.
pub open spec fn front(st: SimState, i: int, s: nat) -> Set<int> {
    Set::new(|c: int| first_to(st, i, c, s))
}

/// The number of snakes among the first to reach `c`, in round `s`.
pub open spec fn claimants(st: SimState, c: int, s: nat) -> nat {
    count_where(st.num_snakes as int, |j: int| first_to(st, j, c, s))
}

/// Cell `c` is contested in round `s`: after the start, two snakes or more reach it
/// first together.
pub open spec fn contested_at(st: SimState, c: int, s: nat) -> bool {
    s >= 1 && claimants(st, c, s) >= 2
}

/// The cells snake `i` owns after `r` rounds: those it alone reaches first.
pub open spec fn owned_upto(st: SimState, i: int, r: nat) -> Set<int> {
    Set::new(|c: int| exists|s: nat| s <= r && #[trigger] first_to(st, i, c, s) && !contested_at(st, c, s))
}

/// The cells contested in the first `r` rounds.
pub open spec fn contested_upto(st: SimState, r: nat) -> Set<int> {
    Set::new(|c: int| exists|s: nat| s <= r && #[trigger] contested_at(st, c, s))
}

/// The number of rounds the race runs: the board's width plus its height.
pub open spec fn race_rounds(st: SimState) -> nat {
    (st.width + st.height) as nat
}

/// A flood from fewer seeds reaches no more.
pub proof fn lemma_flood_iter_seed_subset(a: Set<int>, b: Set<int>, open: Set<int>, w: int, h: int, k: nat)
    requires
        a.subset_of(b),
    ensures
        flood_iter(a, open, w, h, k).subset_of(flood_iter(b, open, w, h, k)),
    decreases k,
{
    if k > 0 {
        lemma_flood_iter_seed_subset(a, b, open, w, h, (k - 1) as nat);
    }
}

/// The cells next to a union are next to one of its parts.
pub proof fn lemma_neighborhood_union(a: Set<int>, b: Set<int>, w: int, h: int)
    ensures
        neighborhood(a.union(b), w, h) == neighborhood(a, w, h).union(neighborhood(b, w, h)),
{
    assert(neighborhood(a.union(b), w, h) =~= neighborhood(a, w, h).union(neighborhood(b, w, h)));
}

/// A front in the next round is what the front spreads to that the race has not
/// reached yet.
pub proof fn lemma_front_step(st: SimState, i: int, r: nat)
    requires
        0 <= i,
    ensures
        front(st, i, r + 1) == neighborhood(front(st, i, r), st.width as int, st.height as int).intersect(
            passable(st),
        ).difference(spread(st, head_seeds(st), r)),
{
    let w = st.width as int;
    let h = st.height as int;
    let p = passable(st);
    let u = head_seeds(st);
    let si = head_seed(st, i);
    assert(si.subset_of(u));
    lemma_flood_iter_seed_subset(si, u, p, w, h, r);
    let x = flood_iter(si, p, w, h, r);
    let y = flood_iter(u, p, w, h, r);
    let rhs = neighborhood(front(st, i, r), w, h).intersect(p).difference(y);
    assert forall|c: int| #[trigger] front(st, i, r + 1).contains(c) implies rhs.contains(c) by {
        assert(!x.contains(c));
        assert(!y.contains(c));
        let l = if r == 0 {
            Set::<int>::empty()
        } else {
            flood_iter(si, p, w, h, (r - 1) as nat)
        };
        let m = if r == 0 {
            Set::<int>::empty()
        } else {
            flood_iter(u, p, w, h, (r - 1) as nat)
        };
        if r > 0 {
            lemma_flood_iter_monotone(si, p, w, h, (r - 1) as nat, r);
            lemma_flood_iter_monotone(u, p, w, h, (r - 1) as nat, r);
        }
        // `x` is `l` plus the front; spreading from `l` stays inside round `r`.
        assert(x =~= l.union(x.difference(l)));
        assert(x.difference(l) =~= front(st, i, r).union(x.difference(l).difference(front(st, i, r))));
        lemma_neighborhood_union(l, x.difference(l), w, h);
        lemma_neighborhood_union(front(st, i, r), x.difference(l).difference(front(st, i, r)), w, h);
        assert(neighborhood(x, w, h).contains(c));
        if r > 0 && neighborhood(l, w, h).contains(c) {
            assert(x.contains(c));
        }
        if neighborhood(x.difference(l).difference(front(st, i, r)), w, h).contains(c) {
            // A cell of round `r` of snake `i` that the race reached earlier: its
            // neighbour `c` would be reached by the race by round `r`.
            let q = x.difference(l).difference(front(st, i, r));
            assert forall|z: int| q.contains(z) implies m.contains(z) by {
                assert(!race_layer(st, z, r));
                lemma_flood_iter_seed_subset(si, u, p, w, h, r);
                assert(y.contains(z));
            }
            assert(q.subset_of(m));
            if r > 0 {
                assert(neighborhood(m, w, h).contains(c)) by {
                    assert(m =~= q.union(m.difference(q)));
                    lemma_neighborhood_union(q, m.difference(q), w, h);
                }
                lemma_flood_iter_open(si, p, w, h, r + 1);
                assert(y.contains(c));
            } else {
                assert(q =~= Set::<int>::empty());
            }
        }
    }
    assert forall|c: int| rhs.contains(c) implies #[trigger] front(st, i, r + 1).contains(c) by {
        let f = front(st, i, r);
        assert(f.subset_of(x));
        assert(f.subset_of(y));
        assert(x =~= f.union(x.difference(f)));
        lemma_neighborhood_union(f, x.difference(f), w, h);
        assert(y =~= f.union(y.difference(f)));
        lemma_neighborhood_union(f, y.difference(f), w, h);
        lemma_flood_iter_seed_subset(si, u, p, w, h, r);
        assert(!x.contains(c));
    }
    assert(front(st, i, r + 1) =~= rhs);
}

/// A cell next to `s` is next to one cell `q` of `s`, and so next to any set
/// holding `q`.
pub proof fn lemma_neighborhood_pick(s: Set<int>, c: int, w: int, h: int) -> (q: int)
    requires
        neighborhood(s, w, h).contains(c),
    ensures
        s.contains(q),
        forall|t: Set<int>| t.contains(q) ==> #[trigger] neighborhood(t, w, h).contains(c),
{
    if c >= w && s.contains(c - w) {
        c - w
    } else if c + w < w * h && s.contains(c + w) {
        c + w
    } else if c % w != 0 && s.contains(c - 1) {
        c - 1
    } else {
        c + 1
    }
}

/// Every cell the race first reaches in round `r` is first reached then by some
/// snake.
pub proof fn lemma_fronts_cover(st: SimState, c: int, r: nat)
    requires
        race_layer(st, c, r),
    ensures
        exists|j: int| 0 <= j < st.num_snakes && #[trigger] first_to(st, j, c, r),
    decreases r,
{
    let w = st.width as int;
    let h = st.height as int;
    let p = passable(st);
    let u = head_seeds(st);
    if r == 0 {
        let j = choose|j: int| 0 <= j < st.num_snakes && #[trigger] head_seed(st, j).contains(c);
        assert(first_to(st, j, c, 0));
    } else {
        let k = (r - 1) as nat;
        let y = flood_iter(u, p, w, h, k);
        assert(!y.contains(c));
        assert(neighborhood(y, w, h).contains(c));
        let q = lemma_neighborhood_pick(y, c, w, h);
        if k > 0 && flood_iter(u, p, w, h, (k - 1) as nat).contains(q) {
            assert(neighborhood(flood_iter(u, p, w, h, (k - 1) as nat), w, h).contains(c));
            assert(y.contains(c));
        }
        assert(race_layer(st, q, k));
        lemma_fronts_cover(st, q, k);
        let j = choose|j: int| 0 <= j < st.num_snakes && #[trigger] first_to(st, j, q, k);
        assert(front(st, j, k).contains(q));
        assert(neighborhood(front(st, j, k), w, h).contains(c));
        lemma_front_step(st, j, k);
        assert(front(st, j, r).contains(c));
    }
}

/// A flood from no seed reaches nothing.
pub proof fn lemma_flood_iter_empty(open: Set<int>, w: int, h: int, k: nat)
    ensures
        flood_iter(Set::<int>::empty(), open, w, h, k) == Set::<int>::empty(),
    decreases k,
{
    if k > 0 {
        lemma_flood_iter_empty(open, w, h, (k - 1) as nat);
        assert(neighborhood(Set::<int>::empty(), w, h) =~= Set::<int>::empty());
        assert(flood_iter(Set::<int>::empty(), open, w, h, k) =~= Set::<int>::empty());
    } else {
        assert(flood_iter(Set::<int>::empty(), open, w, h, k) =~= Set::<int>::empty());
    }
}

/// A snake that is dead or out of play reaches nothing.
pub proof fn lemma_front_absent(st: SimState, j: int, s: nat)
    requires
        !(0 <= j < st.num_snakes && st.snakes[j].alive),
    ensures
        front(st, j, s) == Set::<int>::empty(),
{
    lemma_flood_iter_empty(passable(st), st.width as int, st.height as int, s);
    assert(head_seed(st, j) == Set::<int>::empty());
    assert(front(st, j, s) =~= Set::<int>::empty());
}

/// Once every front is empty, every later front is empty too.
pub proof fn lemma_fronts_stay_empty(st: SimState, t: nat, s: nat)
    requires
        t <= s,
        forall|j: int| 0 <= j < st.num_snakes ==> #[trigger] front(st, j, t) == Set::<int>::empty(),
    ensures
        forall|j: int| 0 <= j < st.num_snakes ==> #[trigger] front(st, j, s) == Set::<int>::empty(),
    decreases s - t,
{
    if t < s {
        lemma_fronts_stay_empty(st, t, (s - 1) as nat);
        assert forall|j: int| 0 <= j < st.num_snakes implies #[trigger] front(st, j, s) == Set::<int>::empty() by {
            assert(front(st, j, (s - 1) as nat) == Set::<int>::empty());
            lemma_front_step(st, j, (s - 1) as nat);
            assert(neighborhood(Set::<int>::empty(), st.width as int, st.height as int) =~= Set::<int>::empty());
            assert(front(st, j, s) =~= Set::<int>::empty());
        }
    }
}

/// The race reaches in `r + 1` rounds what it reached in `r`, plus the fronts of
/// round `r + 1`.
pub proof fn lemma_spread_step(st: SimState, r: nat)
    ensures
        forall|c: int|
            #[trigger] spread(st, head_seeds(st), r + 1).contains(c) == (spread(st, head_seeds(st), r).contains(c)
                || exists|j: int| 0 <= j < st.num_snakes && #[trigger] first_to(st, j, c, r + 1)),
{
    let u = head_seeds(st);
    lemma_flood_iter_monotone(u, passable(st), st.width as int, st.height as int, r, r + 1);
    assert forall|c: int|
        #[trigger] spread(st, u, r + 1).contains(c) == (spread(st, u, r).contains(c) || exists|j: int|
            0 <= j < st.num_snakes && #[trigger] first_to(st, j, c, r + 1)) by {
        if spread(st, u, r + 1).contains(c) && !spread(st, u, r).contains(c) {
            assert(race_layer(st, c, r + 1));
            lemma_fronts_cover(st, c, r + 1);
        }
    }
}

/// The race's start: the passable heads, each its snake's first front.
pub proof fn lemma_spread_start(st: SimState)
    ensures
        forall|c: int|
            #[trigger] spread(st, head_seeds(st), 0).contains(c) == exists|j: int|
                0 <= j < st.num_snakes && #[trigger] first_to(st, j, c, 0),
{
    assert forall|c: int|
        #[trigger] spread(st, head_seeds(st), 0).contains(c) == exists|j: int|
            0 <= j < st.num_snakes && #[trigger] first_to(st, j, c, 0) by {
        if spread(st, head_seeds(st), 0).contains(c) {
            lemma_fronts_cover(st, c, 0);
        }
    }
}

/// Some snake among the first `n` reaches `c` first in round `s` exactly when
/// their count of claims is positive.
proof fn lemma_claims_positive(st: SimState, c: int, s: nat, n: int)
    ensures
        (count_where(n, |j: int| first_to(st, j, c, s)) >= 1) == exists|j: int|
            0 <= j < n && #[trigger] first_to(st, j, c, s),
    decreases n,
{
    if n > 0 {
        lemma_claims_positive(st, c, s, n - 1);
        assert(count_where(n, |j: int| first_to(st, j, c, s)) == count_where(n - 1, |j: int| first_to(st, j, c, s))
            + (if first_to(st, n - 1, c, s) {
            1nat
        } else {
            0nat
        }));
        if exists|j: int| 0 <= j < n && #[trigger] first_to(st, j, c, s) {
            let j = choose|j: int| 0 <= j < n && #[trigger] first_to(st, j, c, s);
            if j < n - 1 {
                assert(exists|k: int| 0 <= k < n - 1 && #[trigger] first_to(st, k, c, s));
            }
        }
    }
}

/// Adding snake `i`'s front to the tallies of round `r + 1` over the snakes
/// before it gives the tallies over the snakes up to it.
proof fn lemma_round_tally(st: SimState, i: int, r: nat, rr0: Set<int>, rc0: Set<int>, rr: Set<int>, rc: Set<int>)
    requires
        0 <= i,
        forall|c: int| #[trigger] rr0.contains(c) == exists|j: int| 0 <= j < i && #[trigger] first_to(st, j, c, r + 1),
        forall|c: int| #[trigger] rc0.contains(c) == (count_where(i, |j: int| first_to(st, j, c, r + 1)) >= 2),
        forall|c: int| #[trigger] rr.contains(c) == (rr0.contains(c) || front(st, i, r + 1).contains(c)),
        forall|c: int|
            #[trigger] rc.contains(c) == (rc0.contains(c) || (front(st, i, r + 1).contains(c) && rr0.contains(c))),
    ensures
        forall|c: int| #[trigger] rr.contains(c) == exists|j: int| 0 <= j < i + 1 && #[trigger] first_to(st, j, c, r + 1),
        forall|c: int| #[trigger] rc.contains(c) == (count_where(i + 1, |j: int| first_to(st, j, c, r + 1)) >= 2),
{
    assert forall|c: int| #[trigger] rc.contains(c) == (count_where(i + 1, |j: int| first_to(st, j, c, r + 1)) >= 2) by {
        lemma_claims_positive(st, c, r + 1, i);
        assert(front(st, i, r + 1).contains(c) == first_to(st, i, c, r + 1));
        assert(rr0.contains(c) == exists|j: int| 0 <= j < i && #[trigger] first_to(st, j, c, r + 1));
        assert(rc0.contains(c) == (count_where(i, |j: int| first_to(st, j, c, r + 1)) >= 2));
        assert(count_where(i + 1, |j: int| first_to(st, j, c, r + 1)) == count_where(
            i,
            |j: int| first_to(st, j, c, r + 1),
        ) + (if first_to(st, i, c, r + 1) {
            1nat
        } else {
            0nat
        }));
    }
    assert forall|c: int| #[trigger] rr.contains(c) == exists|j: int| 0 <= j < i + 1 && #[trigger] first_to(st, j, c, r + 1) by {
        assert(front(st, i, r + 1).contains(c) == first_to(st, i, c, r + 1));
        if exists|j: int| 0 <= j < i + 1 && #[trigger] first_to(st, j, c, r + 1) {
            let j = choose|j: int| 0 <= j < i + 1 && #[trigger] first_to(st, j, c, r + 1);
            if j < i {
                assert(rr0.contains(c));
            }
        }
    }
}

/// The front of snake `i` in round `r + 1`, from its front in round `r`: the
/// cells next to it that are passable and not yet reached by the race.
fn spread_front(
    st: &SimState,
    f: Bitboard,
    reached: Bitboard,
    blocked: Bitboard,
    Ghost(i): Ghost<int>,
    Ghost(r): Ghost<nat>,
) -> (e: Bitboard)
    requires
        st.wf(),
        st.width < 128,
        0 <= i,
        blocked@ == bits(st.all_bodies).difference(st.moving_tails()),
        reached@ == spread(*st, head_seeds(*st), r),
        f@ == front(*st, i, r),
    ensures
        e@ == front(*st, i, r + 1),
{
    let ghost w = st.width as int;
    let ghost h = st.height as int;
    proof {
        lemma_bit_not(blocked.0);
        lemma_bit_not(reached.0);
        lemma_front_step(*st, i, r);
        lemma_flood_iter_open(head_seed(*st, i), passable(*st), w, h, r);
        assert(f@.subset_of(st.masks.cells()));
    }
    let e = f.expand(&st.masks);
    let expansion = Bitboard(e.0 & st.masks.board_mask & !blocked.0 & !reached.0);
    proof {
        assert(bits(st.masks.board_mask) =~= st.masks.cells());
        lemma_bit_and(e.0, st.masks.board_mask);
        lemma_bit_and(e.0 & st.masks.board_mask, !blocked.0);
        lemma_bit_and(e.0 & st.masks.board_mask & !blocked.0, !reached.0);
        let ghost target = neighborhood(f@, w, h).intersect(passable(*st)).difference(spread(*st, head_seeds(*st), r));
        assert forall|c: int| #[trigger] expansion@.contains(c) == target.contains(c) by {
            assert(expansion@.contains(c) == bit(expansion.0, c));
            assert(e@.contains(c) == bit(e.0, c));
            assert(blocked@.contains(c) == bit(blocked.0, c));
            assert(reached@.contains(c) == bit(reached.0, c));
            assert(bit(expansion.0, c) == (bit(e.0, c) && bit(st.masks.board_mask, c) && bit(!blocked.0, c) && bit(
                !reached.0,
                c,
            )));
            assert(st.masks.cells().contains(c) == bit(st.masks.board_mask, c));
        }
        assert(expansion@ =~= front(*st, i, r + 1));
    }
    expansion
}

/// Plays round `r + 1` of the race: every front spreads to the passable cells the
/// race has not reached yet. Gives the cells reached in the round, those reached
/// by two snakes or more, and whether any snake spread.
fn race_round(
    st: &SimState,
    frontiers: &mut [Bitboard; MAX_SNAKES],
    owned: &mut [Bitboard; MAX_SNAKES],
    reached: Bitboard,
    blocked: Bitboard,
    Ghost(r): Ghost<nat>,
) -> (res: (Bitboard, Bitboard, bool))
    requires
        st.wf(),
        st.width < 128,
        blocked@ == bits(st.all_bodies).difference(st.moving_tails()),
        reached@ == spread(*st, head_seeds(*st), r),
        forall|j: int| 0 <= j < MAX_SNAKES ==> #[trigger] old(frontiers)[j]@ == front(*st, j, r),
    ensures
        forall|j: int| 0 <= j < MAX_SNAKES ==> #[trigger] final(frontiers)[j]@ == front(*st, j, r + 1),
        forall|j: int|
            0 <= j < MAX_SNAKES ==> #[trigger] final(owned)[j]@ == old(owned)[j]@.union(front(*st, j, r + 1)),
        forall|c: int|
            #[trigger] res.0@.contains(c) == exists|j: int| 0 <= j < st.num_snakes && #[trigger] first_to(*st, j, c, r + 1),
        forall|c: int| #[trigger] res.1@.contains(c) == (claimants(*st, c, r + 1) >= 2),
        res.2 == exists|j: int| 0 <= j < st.num_snakes && #[trigger] front(*st, j, r + 1) != Set::<int>::empty(),
{
    let ghost w = st.width as int;
    let ghost h = st.height as int;
    let ghost f0 = *frontiers;
    let ghost o0 = *owned;
    let mut round_reached = Bitboard(0);
    let mut round_contested = Bitboard(0);
    let mut any_expanded = false;
    proof {
        crate::bits::lemma_bit_zero();
        assert(round_reached@ =~= Set::<int>::empty());
        lemma_bit_not(blocked.0);
        lemma_bit_not(reached.0);
    }
    let num = st.num_snakes as usize;
    let mut i: usize = 0;
    while i < num
        invariant
            st.wf(),
            st.width < 128,
            w == st.width,
            h == st.height,
            num == st.num_snakes,
            i <= num,
            blocked@ == bits(st.all_bodies).difference(st.moving_tails()),
            reached@ == spread(*st, head_seeds(*st), r),
            forall|j: int| 0 <= j < MAX_SNAKES ==> #[trigger] f0[j]@ == front(*st, j, r),
            forall|j: int|
                0 <= j < MAX_SNAKES ==> #[trigger] frontiers[j]@ == if j < i {
                    front(*st, j, r + 1)
                } else {
                    f0[j]@
                },
            forall|j: int|
                0 <= j < MAX_SNAKES ==> #[trigger] owned[j]@ == if j < i {
                    o0[j]@.union(front(*st, j, r + 1))
                } else {
                    o0[j]@
                },
            forall|c: int|
                #[trigger] round_reached@.contains(c) == exists|j: int| 0 <= j < i && #[trigger] first_to(*st, j, c, r + 1),
            forall|c: int|
                #[trigger] round_contested@.contains(c) == (count_where(i as int, |j: int| first_to(*st, j, c, r + 1)) >= 2),
            any_expanded == exists|j: int| 0 <= j < i && #[trigger] front(*st, j, r + 1) != Set::<int>::empty(),
        decreases num - i,
    {
        let ghost fr = front(*st, i as int, r);
        proof {
            lemma_bit_not(blocked.0);
            lemma_bit_not(reached.0);
            lemma_front_step(*st, i as int, r);
            lemma_flood_iter_open(head_seed(*st, i as int), passable(*st), w, h, r);
            assert(fr.subset_of(st.masks.cells()));
        }
        let ghost before_rr = round_reached@;
        let ghost before_rc = round_contested@;
        if frontiers[i].is_empty() {
            proof {
                assert(neighborhood(fr, w, h) =~= Set::<int>::empty());
                assert(front(*st, i as int, r + 1) =~= Set::<int>::empty());
            }
            assert forall|c: int| !#[trigger] first_to(*st, i as int, c, r + 1) by {
                assert(!front(*st, i as int, r + 1).contains(c));
            }
        } else {
            assert(frontiers[i as int]@ == fr);
            let expansion = spread_front(st, frontiers[i], reached, blocked, Ghost(i as int), Ghost(r));
            if expansion.any() {
                let overlap = Bitboard(expansion.0 & round_reached.0);
                proof {
                    lemma_bit_and(expansion.0, round_reached.0);
                }
                if overlap.any() {
                    let old_rc = round_contested.0;
                    round_contested = Bitboard(round_contested.0 | overlap.0);
                    proof {
                        lemma_bit_or(old_rc, overlap.0);
                    }
                }
                assert forall|c: int| #[trigger] round_contested@.contains(c) == (before_rc.contains(c) || (front(
                    *st,
                    i as int,
                    r + 1,
                ).contains(c) && before_rr.contains(c))) by {
                    assert(overlap@.contains(c) == (expansion@.contains(c) && before_rr.contains(c)));
                }
                let old_rr = round_reached.0;
                round_reached = Bitboard(round_reached.0 | expansion.0);
                proof {
                    lemma_bit_or(old_rr, expansion.0);
                }
                any_expanded = true;
                let old_owned = owned[i].0;
                assert(owned[i as int]@ == o0[i as int]@);
                owned[i] = Bitboard(owned[i].0 | expansion.0);
                proof {
                    lemma_bit_or(old_owned, expansion.0);
                    assert(owned[i as int]@ =~= o0[i as int]@.union(front(*st, i as int, r + 1)));
                }
                frontiers[i] = expansion;
            } else {
                frontiers[i] = Bitboard(0);
                proof {
                    crate::bits::lemma_bit_zero();
                    assert(front(*st, i as int, r + 1) =~= Set::<int>::empty());
                    assert(frontiers[i as int]@ =~= front(*st, i as int, r + 1));
                    assert(owned[i as int]@ == o0[i as int]@);
                    assert(owned[i as int]@ =~= o0[i as int]@.union(front(*st, i as int, r + 1)));
                }
            }
        }
        assert forall|c: int| #[trigger] round_contested@.contains(c) == (before_rc.contains(c) || (front(
            *st,
            i as int,
            r + 1,
        ).contains(c) && before_rr.contains(c))) by {
        }
        assert forall|c: int| #[trigger] round_reached@.contains(c) == (before_rr.contains(c) || front(
            *st,
            i as int,
            r + 1,
        ).contains(c)) by {
        }
        proof {
            lemma_round_tally(*st, i as int, r, before_rr, before_rc, round_reached@, round_contested@);
            assert forall|j: int|
                0 <= j < MAX_SNAKES implies #[trigger] owned[j]@ == if j < i + 1 {
                    o0[j]@.union(front(*st, j, r + 1))
                } else {
                    o0[j]@
                } by {
                if j == i {
                    assert(owned[j]@ =~= o0[j]@.union(front(*st, j, r + 1)));
                }
            }
        }
        i += 1;
    }
    proof {
        assert forall|j: int| 0 <= j < MAX_SNAKES implies #[trigger] frontiers[j]@ == front(*st, j, r + 1) by {
            if j >= num {
                lemma_front_absent(*st, j, r);
                lemma_front_absent(*st, j, r + 1);
            }
        }
        assert forall|j: int| 0 <= j < MAX_SNAKES implies #[trigger] owned[j]@ == o0[j]@.union(front(*st, j, r + 1)) by {
            if j >= num {
                lemma_front_absent(*st, j, r + 1);
                assert(o0[j]@.union(front(*st, j, r + 1)) =~= o0[j]@);
            }
        }
    }
    (round_reached, round_contested, any_expanded)
}

/// The cells two snakes or more reach first together in round `s`.
pub open spec fn round_contested(st: SimState, s: nat) -> Set<int> {
    Set::new(|c: int| claimants(st, c, s) >= 2)
}

/// What a snake owns after one more round: what it owned, plus its new front,
/// less the cells contested in that round.
pub proof fn lemma_owned_step(st: SimState, j: int, r: nat)
    requires
        0 <= j,
    ensures
        owned_upto(st, j, r + 1) == owned_upto(st, j, r).union(front(st, j, r + 1)).difference(
            round_contested(st, r + 1),
        ),
{
    let w = st.width as int;
    let h = st.height as int;
    let rhs = owned_upto(st, j, r).union(front(st, j, r + 1)).difference(round_contested(st, r + 1));
    assert forall|c: int| #[trigger] owned_upto(st, j, r + 1).contains(c) == rhs.contains(c) by {
        if owned_upto(st, j, r).contains(c) {
            let s0 = choose|s0: nat| s0 <= r && #[trigger] first_to(st, j, c, s0) && !contested_at(st, c, s0);
            if round_contested(st, r + 1).contains(c) {
                lemma_claims_positive(st, c, r + 1, st.num_snakes as int);
                let k = choose|k: int| 0 <= k < st.num_snakes && #[trigger] first_to(st, k, c, r + 1);
                crate::bitboard::lemma_layer_unique(head_seeds(st), passable(st), w, h, c, s0, r + 1);
            }
        }
        if owned_upto(st, j, r + 1).contains(c) {
            let s0 = choose|s0: nat| s0 <= r + 1 && #[trigger] first_to(st, j, c, s0) && !contested_at(st, c, s0);
            if s0 <= r {
                assert(owned_upto(st, j, r).contains(c));
                if round_contested(st, r + 1).contains(c) {
                    lemma_claims_positive(st, c, r + 1, st.num_snakes as int);
                    let k = choose|k: int| 0 <= k < st.num_snakes && #[trigger] first_to(st, k, c, r + 1);
                    crate::bitboard::lemma_layer_unique(head_seeds(st), passable(st), w, h, c, s0, r + 1);
                }
            } else {
                assert(front(st, j, r + 1).contains(c));
            }
        }
        if rhs.contains(c) && front(st, j, r + 1).contains(c) {
            assert(first_to(st, j, c, r + 1) && !contested_at(st, c, r + 1));
        }
    }
    assert(owned_upto(st, j, r + 1) =~= rhs);
}

/// The contested cells after one more round: those before, plus the round's.
pub proof fn lemma_contested_step(st: SimState, r: nat)
    ensures
        contested_upto(st, r + 1) == contested_upto(st, r).union(round_contested(st, r + 1)),
{
    let rhs = contested_upto(st, r).union(round_contested(st, r + 1));
    assert forall|c: int| #[trigger] contested_upto(st, r + 1).contains(c) == rhs.contains(c) by {
        if contested_upto(st, r + 1).contains(c) {
            let s0 = choose|s0: nat| s0 <= r + 1 && #[trigger] contested_at(st, c, s0);
            if s0 <= r {
                assert(contested_upto(st, r).contains(c));
            }
        }
        if round_contested(st, r + 1).contains(c) {
            assert(contested_at(st, c, r + 1));
        }
    }
    assert(contested_upto(st, r + 1) =~= rhs);
}

/// Once every front is empty, ownership and contests are settled for good.
pub proof fn lemma_settled(st: SimState, t: nat, u: nat)
    requires
        t <= u,
        forall|j: int| 0 <= j < st.num_snakes ==> #[trigger] front(st, j, t) == Set::<int>::empty(),
    ensures
        forall|j: int| 0 <= j ==> #[trigger] owned_upto(st, j, u) == owned_upto(st, j, t),
        contested_upto(st, u) == contested_upto(st, t),
{
    assert forall|s: nat, j: int, c: int| t < s && 0 <= j implies !#[trigger] first_to(st, j, c, s) by {
        lemma_fronts_stay_empty(st, t, s);
        if 0 <= j < st.num_snakes && st.snakes[j].alive {
            assert(front(st, j, s) == Set::<int>::empty());
        } else {
            lemma_front_absent(st, j, s);
        }
        assert(!front(st, j, s).contains(c));
    }
    assert forall|j: int| 0 <= j implies #[trigger] owned_upto(st, j, u) == owned_upto(st, j, t) by {
        assert forall|c: int| #[trigger] owned_upto(st, j, u).contains(c) implies owned_upto(st, j, t).contains(c) by {
            let s0 = choose|s0: nat| s0 <= u && #[trigger] first_to(st, j, c, s0) && !contested_at(st, c, s0);
        }
        assert(owned_upto(st, j, u) =~= owned_upto(st, j, t));
    }
    assert forall|c: int| #[trigger] contested_upto(st, u).contains(c) implies contested_upto(st, t).contains(c) by {
        let s0 = choose|s0: nat| s0 <= u && #[trigger] contested_at(st, c, s0);
        if s0 > t {
            lemma_claims_positive(st, c, s0, st.num_snakes as int);
            let k = choose|k: int| 0 <= k < st.num_snakes && #[trigger] first_to(st, k, c, s0);
        }
    }
    assert(contested_upto(st, u) =~= contested_upto(st, t));
}

/// The race from every live snake's head through the passable cells, run for
/// `race_rounds` rounds or until no snake spreads: the cells each snake owns, and
/// the contested cells.
pub fn race_territory(st: &SimState) -> (r: ([Bitboard; MAX_SNAKES], Bitboard))
    requires
        st.wf(),
        st.width < 128,
    ensures
        forall|j: int| 0 <= j < MAX_SNAKES ==> #[trigger] r.0[j]@ == owned_upto(*st, j, race_rounds(*st)),
        r.1@ == contested_upto(*st, race_rounds(*st)),
{
    let moving_tails = st.moving_tails_bb();
    let blocked = Bitboard(st.all_bodies & !moving_tails);
    proof {
        lemma_bit_not(moving_tails);
        lemma_bit_and(st.all_bodies, !moving_tails);
        assert(blocked@ =~= bits(st.all_bodies).difference(st.moving_tails()));
        crate::bits::lemma_bit_zero();
    }
    let mut frontiers: [Bitboard; MAX_SNAKES] = [Bitboard(0); 8];
    let mut owned: [Bitboard; MAX_SNAKES] = [Bitboard(0); 8];
    let mut contested = Bitboard(0);
    let mut reached = Bitboard(0);
    let num = st.num_snakes as usize;
    let mut i: usize = 0;
    while i < num
        invariant
            st.wf(),
            num == st.num_snakes,
            i <= num,
            blocked@ == bits(st.all_bodies).difference(st.moving_tails()),
            forall|j: int|
                0 <= j < MAX_SNAKES ==> #[trigger] frontiers[j]@ == if j < i {
                    front(*st, j, 0)
                } else {
                    Set::<int>::empty()
                },
            forall|j: int| 0 <= j < MAX_SNAKES ==> #[trigger] owned[j]@ == frontiers[j]@,
            forall|c: int| #[trigger] reached@.contains(c) == exists|j: int| 0 <= j < i && #[trigger] first_to(*st, j, c, 0),
        decreases num - i,
    {
        let ghost before = reached@;
        let s = &st.snakes[i];
        if s.alive {
            let hb = Bitboard::from_idx(s.head() as u32);
            let f = Bitboard(hb.0 & !blocked.0);
            proof {
                lemma_bit_not(blocked.0);
                lemma_bit_and(hb.0, !blocked.0);
                assert(head_seed(*st, i as int).subset_of(head_seeds(*st)));
                assert(st.snakes[i as int].seg(0) < st.width * st.height);
                assert forall|c: int| #[trigger] f@.contains(c) == front(*st, i as int, 0).contains(c) by {
                    assert(f@.contains(c) == bit(f.0, c));
                    assert(blocked@.contains(c) == bit(blocked.0, c));
                    assert(hb@.contains(c) == bit(hb.0, c));
                    if c == st.snakes[i as int].seg(0) as int {
                        assert(head_seeds(*st).contains(c));
                    }
                }
                assert(f@ =~= front(*st, i as int, 0));
            }
            frontiers[i] = f;
            owned[i] = f;
            let old_reached = reached.0;
            reached = Bitboard(reached.0 | f.0);
            proof {
                lemma_bit_or(old_reached, f.0);
                assert forall|c: int| #[trigger] reached@.contains(c) == exists|j: int|
                    0 <= j < i + 1 && #[trigger] first_to(*st, j, c, 0) by {
                    assert(f@.contains(c) == first_to(*st, i as int, c, 0));
                    assert(reached@.contains(c) == bit(reached.0, c));
                    assert(before.contains(c) == bit(old_reached, c));
                    assert(f@.contains(c) == bit(f.0, c));
                    if exists|j: int| 0 <= j < i + 1 && #[trigger] first_to(*st, j, c, 0) {
                        let j = choose|j: int| 0 <= j < i + 1 && #[trigger] first_to(*st, j, c, 0);
                        if j < i {
                            assert(before.contains(c));
                        }
                    }
                }
            }
        } else {
            proof {
                lemma_front_absent(*st, i as int, 0);
                assert forall|c: int| #[trigger] reached@.contains(c) == exists|j: int|
                    0 <= j < i + 1 && #[trigger] first_to(*st, j, c, 0) by {
                    assert(!front(*st, i as int, 0).contains(c));
                }
            }
        }
        i += 1;
    }
    proof {
        lemma_spread_start(*st);
        assert(reached@ =~= spread(*st, head_seeds(*st), 0));
        assert forall|j: int| 0 <= j < MAX_SNAKES implies #[trigger] frontiers[j]@ == front(*st, j, 0) by {
            if j >= num {
                lemma_front_absent(*st, j, 0);
            }
        }
        assert forall|j: int| 0 <= j < MAX_SNAKES implies #[trigger] owned[j]@ == owned_upto(*st, j, 0) by {
            assert(owned_upto(*st, j, 0) =~= front(*st, j, 0)) by {
                assert forall|c: int| front(*st, j, 0).contains(c) implies owned_upto(*st, j, 0).contains(c) by {
                    assert(first_to(*st, j, c, 0nat) && !contested_at(*st, c, 0nat));
                }
            }
        }
        assert(contested@ =~= contested_upto(*st, 0));
    }
    let rounds: u32 = st.width as u32 + st.height as u32;
    let mut round: u32 = 0;
    let mut stalled = false;
    while round < rounds && !stalled
        invariant
            st.wf(),
            st.width < 128,
            num == st.num_snakes,
            rounds == race_rounds(*st),
            round <= rounds,
            blocked@ == bits(st.all_bodies).difference(st.moving_tails()),
            forall|j: int| 0 <= j < MAX_SNAKES ==> #[trigger] frontiers[j]@ == front(*st, j, round as nat),
            reached@ == spread(*st, head_seeds(*st), round as nat),
            forall|j: int| 0 <= j < MAX_SNAKES ==> #[trigger] owned[j]@ == owned_upto(*st, j, round as nat),
            contested@ == contested_upto(*st, round as nat),
            stalled ==> forall|j: int|
                0 <= j < st.num_snakes ==> #[trigger] front(*st, j, round as nat) == Set::<int>::empty(),
        decreases rounds - round,
    {
        let ghost r = round as nat;
        let ghost o1 = owned;
        let (rr, rc, any) = race_round(st, &mut frontiers, &mut owned, reached, blocked, Ghost(r));
        let ghost o2 = owned;
        proof {
            assert(rc@ =~= round_contested(*st, r + 1));
        }
        if rc.any() {
            proof {
                lemma_bit_not(rc.0);
            }
            let mut k: usize = 0;
            while k < num
                invariant
                    num == st.num_snakes,
                    num <= MAX_SNAKES,
                    k <= num,
                    forall|c: int| #[trigger] bit(!rc.0, c) == (0 <= c < 128 && !bit(rc.0, c)),
                    forall|j: int|
                        0 <= j < MAX_SNAKES ==> #[trigger] owned[j]@ == if j < k {
                            o2[j]@.difference(rc@)
                        } else {
                            o2[j]@
                        },
                decreases num - k,
            {
                let old_owned = owned[k].0;
                assert(owned[k as int]@ == o2[k as int]@);
                owned[k] = Bitboard(owned[k].0 & !rc.0);
                proof {
                    lemma_bit_and(old_owned, !rc.0);
                    assert(owned[k as int]@ =~= o2[k as int]@.difference(rc@));
                }
                k += 1;
            }
            let old_contested = contested.0;
            contested = Bitboard(contested.0 | rc.0);
            proof {
                lemma_bit_or(old_contested, rc.0);
            }
        }
        let old_reached = reached.0;
        reached = Bitboard(reached.0 | rr.0);
        proof {
            lemma_bit_or(old_reached, rr.0);
            lemma_spread_step(*st, r);
            assert forall|c: int| #[trigger] reached@.contains(c) == spread(*st, head_seeds(*st), r + 1).contains(c) by {
                assert(reached@.contains(c) == bit(reached.0, c));
                assert(bits(old_reached).contains(c) == bit(old_reached, c));
                assert(rr@.contains(c) == bit(rr.0, c));
            }
            assert(reached@ =~= spread(*st, head_seeds(*st), r + 1));
            lemma_contested_step(*st, r);
            assert(contested@ =~= contested_upto(*st, r + 1));
            assert forall|j: int| 0 <= j < MAX_SNAKES implies #[trigger] owned[j]@ == owned_upto(*st, j, r + 1) by {
                lemma_owned_step(*st, j, r);
                if j >= num {
                    lemma_front_absent(*st, j, r + 1);
                    assert forall|c: int| !#[trigger] owned_upto(*st, j, r + 1).contains(c) by {
                        if owned_upto(*st, j, r + 1).contains(c) {
                            let s0 = choose|s0: nat| s0 <= r + 1 && #[trigger] first_to(*st, j, c, s0) && !contested_at(
                                *st,
                                c,
                                s0,
                            );
                            lemma_front_absent(*st, j, s0);
                            assert(front(*st, j, s0).contains(c));
                        }
                    }
                    assert(owned[j]@ =~= owned_upto(*st, j, r + 1));
                } else {
                    assert(owned[j]@ =~= owned_upto(*st, j, r + 1));
                }
            }
        }
        round += 1;
        stalled = !any;
    }
    proof {
        if stalled {
            lemma_settled(*st, round as nat, race_rounds(*st));
        }
    }
    (owned, contested)
}

/// The greatest territory among the first `k` snakes of `enemies`, or zero.
pub open spec fn max_enemy_territory(st: SimState, enemies: Seq<usize>, k: int) -> int
    decreases k,
{
    if k <= 0 {
        0
    } else {
        let m = max_enemy_territory(st, enemies, k - 1);
        let a = owned_upto(st, enemies[k - 1] as int, race_rounds(st)).len() as int;
        if a > m {
            a
        } else {
            m
        }
    }
}

/// The territory counts of the race: the cells snake `my_idx` owns, the most cells
/// any snake of `enemies` owns, and the contested cells.
pub fn area_control_counts(st: &SimState, my_idx: usize, enemies: &[usize]) -> (r: (i32, i32, i32))
    requires
        st.wf(),
        st.width < 128,
        my_idx < MAX_SNAKES,
        forall|k: int| 0 <= k < enemies.len() ==> #[trigger] enemies[k] < MAX_SNAKES,
    ensures
        r.0 == owned_upto(*st, my_idx as int, race_rounds(*st)).len(),
        r.1 == max_enemy_territory(*st, enemies@, enemies.len() as int),
        r.2 == contested_upto(*st, race_rounds(*st)).len(),
{
    let (owned, contested) = race_territory(st);
    let my_area = owned[my_idx].popcount() as i32;
    let contested_count = contested.popcount() as i32;
    let mut max_enemy_area: i32 = 0;
    let mut k: usize = 0;
    while k < enemies.len()
        invariant
            forall|j: int| 0 <= j < MAX_SNAKES ==> #[trigger] owned[j]@ == owned_upto(*st, j, race_rounds(*st)),
            forall|j: int| 0 <= j < enemies.len() ==> #[trigger] enemies[j] < MAX_SNAKES,
            k <= enemies.len(),
            0 <= max_enemy_area <= 128,
            max_enemy_area == max_enemy_territory(*st, enemies@, k as int),
        decreases enemies.len() - k,
    {
        let a = owned[enemies[k]].popcount() as i32;
        if a > max_enemy_area {
            max_enemy_area = a;
        }
        k += 1;
    }
    (my_area, max_enemy_area, contested_count)
}

/// No cell is both owned and contested.
pub proof fn lemma_owned_not_contested(st: SimState, i: int, r: nat, c: int)
    requires
        owned_upto(st, i, r).contains(c),
    ensures
        !contested_upto(st, r).contains(c),
{
    let s0 = choose|s0: nat| s0 <= r && #[trigger] first_to(st, i, c, s0) && !contested_at(st, c, s0);
    if contested_upto(st, r).contains(c) {
        let s1 = choose|s1: nat| s1 <= r && #[trigger] contested_at(st, c, s1);
        lemma_claims_positive(st, c, s1, st.num_snakes as int);
        let k = choose|k: int| 0 <= k < st.num_snakes && #[trigger] first_to(st, k, c, s1);
        crate::bitboard::lemma_layer_unique(
            head_seeds(st),
            passable(st),
            st.width as int,
            st.height as int,
            c,
            s0,
            s1,
        );
    }
}

/// Two snakes own no cell in common when no two live snakes share a head.
pub proof fn lemma_owned_disjoint(st: SimState, i: int, j: int, r: nat, c: int)
    requires
        0 <= i < st.num_snakes,
        0 <= j < st.num_snakes,
        i != j,
        forall|a: int, b: int|
            0 <= a < st.num_snakes && 0 <= b < st.num_snakes && a != b && st.snakes[a].alive && st.snakes[b].alive
                ==> #[trigger] st.snakes[a].seg(0) != #[trigger] st.snakes[b].seg(0),
        owned_upto(st, i, r).contains(c),
    ensures
        !owned_upto(st, j, r).contains(c),
{
    let w = st.width as int;
    let h = st.height as int;
    let si = choose|s0: nat| s0 <= r && #[trigger] first_to(st, i, c, s0) && !contested_at(st, c, s0);
    if owned_upto(st, j, r).contains(c) {
        let sj = choose|s0: nat| s0 <= r && #[trigger] first_to(st, j, c, s0) && !contested_at(st, c, s0);
        crate::bitboard::lemma_layer_unique(head_seeds(st), passable(st), w, h, c, si, sj);
        if si == 0 {
            lemma_flood_iter_empty(passable(st), w, h, 0);
            assert(head_seed(st, i).contains(c));
            assert(head_seed(st, j).contains(c));
        } else {
            assert(count_where(st.num_snakes as int, |k: int| first_to(st, k, c, si)) >= 2) by {
                lemma_two_claims(st, c, si, i, j, st.num_snakes as int);
            }
        }
    }
}

/// Two different snakes among the first `n` that reach `c` first in round `s`
/// make two claims.
proof fn lemma_two_claims(st: SimState, c: int, s: nat, i: int, j: int, n: int)
    requires
        0 <= i < n,
        0 <= j < n,
        i != j,
        first_to(st, i, c, s),
        first_to(st, j, c, s),
    ensures
        count_where(n, |k: int| first_to(st, k, c, s)) >= 2,
    decreases n,
{
    assert(count_where(n, |k: int| first_to(st, k, c, s)) == count_where(n - 1, |k: int| first_to(st, k, c, s)) + (
    if first_to(st, n - 1, c, s) {
        1nat
    } else {
        0nat
    }));
    if i == n - 1 {
        lemma_claims_positive(st, c, s, n - 1);
    } else if j == n - 1 {
        lemma_claims_positive(st, c, s, n - 1);
    } else {
        lemma_two_claims(st, c, s, i, j, n - 1);
    }
}

} // verus!
