//! What a game tracker remembers between turns: the previous state, how each
//! enemy moved, and whether my territory keeps shrinking.
use vstd::prelude::*;
use crate::api::{ApiGameState, ApiBattlesnake, ApiCoord};
use crate::types::manhattan_spec;

verus! {

/// The number of territory measurements a tracker keeps.
pub const HISTORY_LEN: usize = 10;

/// The number of shrinking turns in a row after which territory is collapsing.
pub const COLLAPSE_TURNS: i32 = 3;

/// How one enemy moved between two turns.
#[derive(Clone, Debug)]
pub struct MoveObservation {
    pub snake_id: String,
    pub snake_name: String,
    /// Its head got closer to the nearest food of the previous turn.
    pub moved_toward_food: bool,
    /// Its head got closer to where my head was on the previous turn.
    pub moved_toward_us: bool,
    /// Its head stayed on the board.
    pub chose_safe_move: bool,
}

/// The state of a game across turns.
#[derive(Clone, Debug)]
pub struct GameTracker {
    pub game_id: String,
    pub prev_state: Option<ApiGameState>,
    pub voronoi_history: Vec<i32>,
    pub territory_shrinking_turns: i32,
}

/// The distance from `(x, y)` to the nearest of `food`, or `i32::MAX` without food.
pub open spec fn min_food_dist(food: Seq<ApiCoord>, x: int, y: int) -> int
    decreases food.len(),
{
    if food.len() == 0 {
        i32::MAX as int
    } else {
        let m = min_food_dist(food.drop_last(), x, y);
        let d = manhattan_spec(x, y, food.last().x as int, food.last().y as int);
        if d < m {
            d
        } else {
            m
        }
    }
}

/// The first of the first `n` snakes with id `id`.
pub open spec fn find_id(snakes: Seq<ApiBattlesnake>, id: Seq<char>, n: int) -> Option<int>
    decreases n,
{
    if n <= 0 {
        None
    } else {
        match find_id(snakes, id, n - 1) {
            Some(i) => Some(i),
            None => if snakes[n - 1].id@ == id {
                Some(n - 1)
            } else {
                None
            },
        }
    }
}

/// The snakes among the first `k` of `curr` that are observed: enemies that were
/// also on the board in `prev`.
pub open spec fn observed(prev: ApiGameState, curr: ApiGameState, k: int) -> Seq<int>
    decreases k,
{
    if k <= 0 {
        Seq::empty()
    } else {
        let before = observed(prev, curr, k - 1);
        let s = curr.board.snakes[k - 1];
        if s.id@ != curr.you.id@ && find_id(prev.board.snakes@, s.id@, prev.board.snakes.len() as int) is Some {
            before.push(k - 1)
        } else {
            before
        }
    }
}

/// `o` records how snake `i` of `curr` moved since `prev`.
pub open spec fn observation_of(prev: ApiGameState, curr: ApiGameState, i: int, o: MoveObservation) -> bool {
    let s = curr.board.snakes[i];
    let ps = prev.board.snakes[find_id(prev.board.snakes@, s.id@, prev.board.snakes.len() as int)->0];
    let ph = ps.head;
    let ch = s.head;
    let me = prev.you.head;
    &&& o.snake_id@ == s.id@
    &&& o.snake_name@ == s.name@
    &&& o.moved_toward_food == (prev.board.food.len() > 0 && min_food_dist(prev.board.food@, ch.x as int, ch.y as int)
        < min_food_dist(prev.board.food@, ph.x as int, ph.y as int))
    &&& o.moved_toward_us == (manhattan_spec(ch.x as int, ch.y as int, me.x as int, me.y as int) < manhattan_spec(
        ph.x as int,
        ph.y as int,
        me.x as int,
        me.y as int,
    ))
    &&& o.chose_safe_move == (0 <= ch.x < prev.board.width && 0 <= ch.y < prev.board.height)
}

/// The Manhattan distance between two points, in 64-bit arithmetic, where it
/// cannot overflow.
fn distance(x1: i32, y1: i32, x2: i32, y2: i32) -> (d: i64)
    ensures
        d == manhattan_spec(x1 as int, y1 as int, x2 as int, y2 as int),
{
    let dx = x1 as i64 - x2 as i64;
    let dy = y1 as i64 - y2 as i64;
    let ax: i64 = if dx >= 0 { dx } else { -dx };
    let ay: i64 = if dy >= 0 { dy } else { -dy };
    ax + ay
}

/// The distance from `(x, y)` to the nearest food.
fn nearest_food_dist(food: &Vec<ApiCoord>, x: i32, y: i32) -> (d: i64)
    ensures
        d == min_food_dist(food@, x as int, y as int),
{
    let mut best: i64 = i32::MAX as i64;
    let mut i: usize = 0;
    while i < food.len()
        invariant
            i <= food.len(),
            best == min_food_dist(food@.take(i as int), x as int, y as int),
        decreases food.len() - i,
    {
        let f = food[i];
        let d = distance(x, y, f.x, f.y);
        assert(food@.take(i as int + 1).drop_last() =~= food@.take(i as int));
        if d < best {
            best = d;
        }
        i += 1;
    }
    assert(food@.take(food.len() as int) =~= food@);
    best
}

/// How each enemy on the board in `curr` that was also on it in `prev` moved, in
/// the order of `curr`'s snakes.
pub fn observe_moves(prev: &ApiGameState, curr: &ApiGameState) -> (r: Vec<MoveObservation>)
    ensures
        r.len() == observed(*prev, *curr, curr.board.snakes.len() as int).len(),
        forall|j: int|
            0 <= j < r.len() ==> observation_of(
                *prev,
                *curr,
                #[trigger] observed(*prev, *curr, curr.board.snakes.len() as int)[j],
                r@[j],
            ),
{
    let board_w = prev.board.width;
    let board_h = prev.board.height;
    let my_head_prev = prev.you.head;
    let mut r: Vec<MoveObservation> = Vec::new();
    let mut i: usize = 0;
    while i < curr.board.snakes.len()
        invariant
            board_w == prev.board.width,
            board_h == prev.board.height,
            my_head_prev == prev.you.head,
            i <= curr.board.snakes.len(),
            r.len() == observed(*prev, *curr, i as int).len(),
            forall|j: int|
                0 <= j < r.len() ==> observation_of(*prev, *curr, #[trigger] observed(*prev, *curr, i as int)[j], r@[j]),
            forall|j: int| 0 <= j < r.len() ==> 0 <= #[trigger] observed(*prev, *curr, i as int)[j] < i,
        decreases curr.board.snakes.len() - i,
    {
        let ghost before = r@;
        let curr_snake = &curr.board.snakes[i];
        let same = *(&curr_snake.id) == *(&curr.you.id);
        if !same {
            let found = find_snake(&prev.board.snakes, &curr_snake.id);
            match found {
                Some(pi) => {
                    let prev_snake = &prev.board.snakes[pi];
                    let ph = prev_snake.head;
                    let ch = curr_snake.head;
                    let moved_toward_food = if prev.board.food.len() == 0 {
                        false
                    } else {
                        let before_min = nearest_food_dist(&prev.board.food, ph.x, ph.y);
                        let after_min = nearest_food_dist(&prev.board.food, ch.x, ch.y);
                        after_min < before_min
                    };
                    let dist_before = distance(ph.x, ph.y, my_head_prev.x, my_head_prev.y);
                    let dist_after = distance(ch.x, ch.y, my_head_prev.x, my_head_prev.y);
                    let moved_toward_us = dist_after < dist_before;
                    let chose_safe_move = ch.x >= 0 && ch.x < board_w && ch.y >= 0 && ch.y < board_h;
                    let o = MoveObservation {
                        snake_id: curr_snake.id.clone(),
                        snake_name: curr_snake.name.clone(),
                        moved_toward_food,
                        moved_toward_us,
                        chose_safe_move,
                    };
                    r.push(o);
                    proof {
                        assert(observation_of(*prev, *curr, i as int, o));
                        assert(observed(*prev, *curr, i as int + 1) == observed(*prev, *curr, i as int).push(i as int));
                        assert forall|j: int|
                            0 <= j < r.len() implies observation_of(
                                *prev,
                                *curr,
                                #[trigger] observed(*prev, *curr, i as int + 1)[j],
                                r@[j],
                            ) by {
                            if j < before.len() {
                                assert(r@[j] == before[j]);
                                assert(observed(*prev, *curr, i as int + 1)[j] == observed(*prev, *curr, i as int)[j]);
                            }
                        }
                    }
                },
                None => {},
            }
        }
        i += 1;
    }
    r
}

/// The index of the first snake with id `id`.
fn find_snake(snakes: &Vec<ApiBattlesnake>, id: &String) -> (r: Option<usize>)
    ensures
        match r {
            Some(i) => i < snakes.len() && find_id(snakes@, id@, snakes.len() as int) == Some(i as int),
            None => find_id(snakes@, id@, snakes.len() as int) is None,
        },
{
    let mut i: usize = 0;
    while i < snakes.len()
        invariant
            i <= snakes.len(),
            find_id(snakes@, id@, i as int) is None,
        decreases snakes.len() - i,
    {
        let same = *(&snakes[i].id) == *id;
        if same {
            proof {
                lemma_find_id_stable(snakes@, id@, i as int + 1, snakes.len() as int);
            }
            return Some(i);
        }
        i += 1;
    }
    None
}

/// Once a snake is found among the first `a`, it is the one found among more.
pub proof fn lemma_find_id_stable(snakes: Seq<ApiBattlesnake>, id: Seq<char>, a: int, b: int)
    requires
        a <= b,
        find_id(snakes, id, a) is Some,
    ensures
        find_id(snakes, id, b) == find_id(snakes, id, a),
    decreases b - a,
{
    if a < b {
        lemma_find_id_stable(snakes, id, a, b - 1);
    }
}

/// The territory history after recording `area`: it is appended, and the oldest
/// entry leaves when there are more than `HISTORY_LEN`.
pub open spec fn history_after(h: Seq<i32>, area: i32) -> Seq<i32> {
    let pushed = h.push(area);
    if pushed.len() > HISTORY_LEN {
        pushed.drop_first()
    } else {
        pushed
    }
}

/// The count of shrinking turns after recording `area`: one more when `area` is
/// below the previous measurement, else zero.
pub open spec fn shrinking_after(h: Seq<i32>, t: int, area: i32) -> int {
    if h.len() >= 1 && area < h.last() {
        t + 1
    } else {
        0
    }
}

impl GameTracker {
    /// At most `HISTORY_LEN` measurements, and a count that is not negative.
    pub open spec fn wf(&self) -> bool {
        &&& self.voronoi_history.len() <= HISTORY_LEN
        &&& 0 <= self.territory_shrinking_turns
    }

    /// A tracker for the game of `gs`, with nothing recorded.
    pub fn new(gs: &ApiGameState) -> (t: GameTracker)
        ensures
            t.wf(),
            t.game_id@ == gs.game.id@,
            t.prev_state is None,
            t.voronoi_history@ == Seq::<i32>::empty(),
            t.territory_shrinking_turns == 0,
    {
        GameTracker {
            game_id: gs.game.id.clone(),
            prev_state: None,
            voronoi_history: Vec::new(),
            territory_shrinking_turns: 0,
        }
    }

    /// Keeps `current` as the previous state, and says how the enemies moved since
    /// the state kept before (nothing on the first turn).
    pub fn record_turn(&mut self, current: ApiGameState) -> (obs: Vec<MoveObservation>)
        requires
            old(self).wf(),
        ensures
            final(self).wf(),
            final(self).prev_state == Some(current),
            final(self).game_id == old(self).game_id,
            final(self).voronoi_history == old(self).voronoi_history,
            final(self).territory_shrinking_turns == old(self).territory_shrinking_turns,
            old(self).prev_state is None ==> obs.len() == 0,
            old(self).prev_state matches Some(prev) ==> {
                &&& obs.len() == observed(prev, current, current.board.snakes.len() as int).len()
                &&& forall|j: int|
                    0 <= j < obs.len() ==> observation_of(
                        prev,
                        current,
                        #[trigger] observed(prev, current, current.board.snakes.len() as int)[j],
                        obs@[j],
                    )
            },
    {
        let obs = match &self.prev_state {
            Some(prev) => observe_moves(prev, &current),
            None => Vec::new(),
        };
        self.prev_state = Some(current);
        obs
    }

    /// Records my territory for this turn.
    pub fn record_voronoi(&mut self, area: i32)
        requires
            old(self).territory_shrinking_turns < i32::MAX,
        ensures
            final(self).voronoi_history@ == history_after(old(self).voronoi_history@, area),
            final(self).territory_shrinking_turns == shrinking_after(
                old(self).voronoi_history@,
                old(self).territory_shrinking_turns as int,
                area,
            ),
            final(self).game_id == old(self).game_id,
            final(self).prev_state == old(self).prev_state,
            old(self).wf() ==> final(self).wf(),
    {
        let ghost h = self.voronoi_history@;
        self.voronoi_history.push(area);
        if self.voronoi_history.len() > HISTORY_LEN {
            self.voronoi_history.remove(0);
        }
        assert(self.voronoi_history@ =~= history_after(h, area));
        let len = self.voronoi_history.len();
        if len >= 2 && self.voronoi_history[len - 1] < self.voronoi_history[len - 2] {
            self.territory_shrinking_turns += 1;
        } else {
            self.territory_shrinking_turns = 0;
        }
    }

    /// Territory is collapsing: it shrank `COLLAPSE_TURNS` turns in a row.
    pub fn is_territory_collapsing(&self) -> (r: bool)
        ensures
            r == (self.territory_shrinking_turns >= COLLAPSE_TURNS),
    {
        self.territory_shrinking_turns >= COLLAPSE_TURNS
    }
}

/// After recording an area, the history ends with it and holds at most
/// `HISTORY_LEN` measurements when it held at most that many before.
pub proof fn lemma_history_keeps_latest(h: Seq<i32>, area: i32)
    requires
        h.len() <= HISTORY_LEN,
    ensures
        history_after(h, area).len() <= HISTORY_LEN,
        history_after(h, area).len() >= 1,
        history_after(h, area).last() == area,
{
}

/// Territory collapses after three falls in a row: recording `a`, then a smaller
/// `b`, a smaller `c` and a smaller `d` leaves the tracker reporting collapse,
/// whatever it had recorded before.
pub proof fn lemma_three_falls_collapse(h: Seq<i32>, t: int, a: i32, b: i32, c: i32, d: i32)
    requires
        0 <= t,
        b < a,
        c < b,
        d < c,
    ensures
        ({
            let h1 = history_after(h, a);
            let t1 = shrinking_after(h, t, a);
            let h2 = history_after(h1, b);
            let t2 = shrinking_after(h1, t1, b);
            let h3 = history_after(h2, c);
            let t3 = shrinking_after(h2, t2, c);
            shrinking_after(h3, t3, d) >= COLLAPSE_TURNS
        }),
{
}

/// A measurement that does not fall ends the run of shrinking turns.
pub proof fn lemma_no_fall_resets(h: Seq<i32>, t: int, area: i32)
    requires
        h.len() >= 1 ==> area >= h.last(),
    ensures
        shrinking_after(h, t, area) == 0,
{
}

} // verus!
