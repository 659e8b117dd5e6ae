//! The game state the server receives each turn and the replies it sends, as plain
//! data; reading and writing JSON happens outside the library.
use vstd::prelude::*;
use crate::types::Coord;

verus! {

/// `serde_json::Value`, carried through unread (a snake's reported latency).
#[verifier::external_type_specification]
#[verifier::external_body]
pub struct ExJsonValue(serde_json::Value);

#[derive(Clone, Debug)]
pub struct ApiGameState {
    pub game: ApiGame,
    pub turn: i32,
    pub board: ApiBoard,
    pub you: ApiBattlesnake,
}

#[derive(Clone, Debug)]
pub struct ApiGame {
    pub id: String,
    pub ruleset: ApiRuleset,
    pub map: Option<String>,
    pub timeout: i32,
    pub source: Option<String>,
}

#[derive(Clone, Debug)]
pub struct ApiRuleset {
    pub name: String,
    pub version: Option<String>,
    pub settings: Option<ApiRulesetSettings>,
}

#[derive(Clone, Debug)]
pub struct ApiRulesetSettings {
    pub food_spawn_chance: Option<i32>,
    pub minimum_food: Option<i32>,
    pub hazard_damage_per_turn: Option<i32>,
}

#[derive(Clone, Debug)]
pub struct ApiBoard {
    pub height: i32,
    pub width: i32,
    pub food: Vec<ApiCoord>,
    pub hazards: Vec<ApiCoord>,
    pub snakes: Vec<ApiBattlesnake>,
}

#[derive(Clone, Debug)]
pub struct ApiBattlesnake {
    pub id: String,
    pub name: String,
    pub health: i32,
    pub body: Vec<ApiCoord>,
    pub latency: Option<serde_json::Value>,
    pub head: ApiCoord,
    pub length: i32,
    pub shout: Option<String>,
    pub customizations: Option<ApiCustomizations>,
}

#[derive(Clone, Copy, Debug)]
pub struct ApiCoord {
    pub x: i32,
    pub y: i32,
}

#[derive(Clone, Debug)]
pub struct ApiCustomizations {
    pub color: Option<String>,
    pub head: Option<String>,
    pub tail: Option<String>,
}

#[derive(Clone, Debug)]
pub struct InfoResponse {
    pub apiversion: String,
    pub author: String,
    pub color: String,
    pub head: String,
    pub tail: String,
    pub version: String,
}

#[derive(Clone, Debug)]
pub struct MoveResponse {
    pub direction: String,
    pub shout: String,
}

/// The point a coordinate of the protocol names.
pub open spec fn coord_of(c: ApiCoord) -> Coord {
    Coord { x: c.x, y: c.y }
}

/// The cell where a snake's tail is: its last body segment, or its head when the
/// body is empty.
pub open spec fn tail_of(s: ApiBattlesnake) -> ApiCoord {
    if s.body.len() > 0 {
        s.body@.last()
    } else {
        s.head
    }
}

impl ApiBattlesnake {
    pub fn head_coord(&self) -> (c: Coord)
        ensures
            c == coord_of(self.head),
    {
        Coord::new(self.head.x, self.head.y)
    }

    pub fn tail_coord(&self) -> (c: Coord)
        ensures
            c == coord_of(tail_of(*self)),
    {
        let t = if self.body.len() > 0 {
            self.body[self.body.len() - 1]
        } else {
            self.head
        };
        Coord::new(t.x, t.y)
    }
}

impl<'a> From<&'a ApiCoord> for Coord {
    fn from(c: &'a ApiCoord) -> (r: Coord)
        ensures
            r == coord_of(*c),
    {
        Coord::new(c.x, c.y)
    }
}

impl<'a> vstd::std_specs::convert::FromSpecImpl<&'a ApiCoord> for Coord {
    open spec fn obeys_from_spec() -> bool {
        true
    }

    open spec fn from_spec(c: &'a ApiCoord) -> Coord {
        coord_of(*c)
    }
}

impl ApiCoord {
    /// The coordinate lies on a `w` x `h` board.
    pub open spec fn on_board(&self, w: int, h: int) -> bool {
        0 <= self.x < w && 0 <= self.y < h
    }
}

impl ApiGameState {
    /// The board has at most 128 cells and every coordinate the state mentions lies
    /// on it, as the game's protocol guarantees.
    pub open spec fn well_formed(&self) -> bool {
        let w = self.board.width as int;
        let h = self.board.height as int;
        &&& 1 <= w
        &&& 1 <= h
        &&& w * h <= 128
        &&& forall|i: int| 0 <= i < self.board.food.len() ==> #[trigger] self.board.food[i].on_board(w, h)
        &&& forall|i: int| 0 <= i < self.board.hazards.len() ==> #[trigger] self.board.hazards[i].on_board(w, h)
        &&& forall|i: int| 0 <= i < self.board.snakes.len() ==> #[trigger] self.board.snakes[i].head.on_board(w, h)
        &&& forall|i: int| 0 <= i < self.board.snakes.len() ==> #[trigger] self.board.snakes[i].body.len() >= 1
        &&& forall|i: int, k: int|
            0 <= i < self.board.snakes.len() && 0 <= k < self.board.snakes[i].body.len() ==> #[trigger] self.board.snakes[i].body[k].on_board(w, h)
        &&& self.you.head.on_board(w, h)
        &&& forall|k: int| 0 <= k < self.you.body.len() ==> #[trigger] self.you.body[k].on_board(w, h)
    }
}

impl ApiGameState {
    /// What the board of this state needs: at most 128 cells, food, hazards and heads
    /// on it, my tail on it, and the cell index `y * width + x` of every body
    /// segment computable in `i32` (segments off the board are skipped; bodies may
    /// be empty).
    pub open spec fn board_ready(&self) -> bool {
        let w = self.board.width as int;
        let h = self.board.height as int;
        &&& 1 <= w
        &&& 1 <= h
        &&& w * h <= 128
        &&& forall|i: int| 0 <= i < self.board.food.len() ==> #[trigger] self.board.food[i].on_board(w, h)
        &&& forall|i: int| 0 <= i < self.board.hazards.len() ==> #[trigger] self.board.hazards[i].on_board(w, h)
        &&& forall|i: int| 0 <= i < self.board.snakes.len() ==> #[trigger] self.board.snakes[i].head.on_board(w, h)
        &&& forall|i: int, k: int|
            0 <= i < self.board.snakes.len() && 0 <= k < self.board.snakes[i].body.len() ==> #[trigger] self.board.snakes[i].body[k].index_fits(w)
        &&& self.you.head.on_board(w, h)
        &&& tail_of(self.you).on_board(w, h)
    }
}

impl ApiCoord {
    /// `y * w` and `y * w + x` are `i32` values.
    pub open spec fn index_fits(&self, w: int) -> bool {
        &&& i32::MIN <= self.y * w <= i32::MAX
        &&& i32::MIN <= self.y * w + self.x <= i32::MAX
    }

    fn on_board_exec(&self, w: i32, h: i32) -> (b: bool)
        ensures
            b == self.on_board(w as int, h as int),
    {
        0 <= self.x && self.x < w && 0 <= self.y && self.y < h
    }
}

/// Every coordinate of `cs` lies on a `w` x `h` board.
fn all_on_board(cs: &Vec<ApiCoord>, w: i32, h: i32) -> (b: bool)
    ensures
        b == forall|i: int| 0 <= i < cs.len() ==> #[trigger] cs[i].on_board(w as int, h as int),
{
    let mut i: usize = 0;
    while i < cs.len()
        invariant
            i <= cs.len(),
            forall|j: int| 0 <= j < i ==> #[trigger] cs[j].on_board(w as int, h as int),
        decreases cs.len() - i,
    {
        if !cs[i].on_board_exec(w, h) {
            return false;
        }
        i += 1;
    }
    true
}

impl ApiGameState {
    /// Whether the state is one the engine handles: well formed, on a board with
    /// fewer than 128 columns.
    pub fn fits_engine(&self) -> (b: bool)
        ensures
            b == (self.well_formed() && self.board.width < 128),
            b ==> self.board_ready(),
    {
        let w = self.board.width;
        let h = self.board.height;
        if w < 1 || h < 1 || w >= 128 {
            return false;
        }
        if h > 128 {
            assert(w * h > 128) by (nonlinear_arith)
                requires
                    w >= 1,
                    h > 128,
            ;
            return false;
        }
        assert(w * h <= 128 * 128) by (nonlinear_arith)
            requires
                1 <= w < 128,
                1 <= h <= 128,
        ;
        if w * h > 128 {
            return false;
        }
        if !all_on_board(&self.board.food, w, h) || !all_on_board(&self.board.hazards, w, h) {
            return false;
        }
        if !self.you.head.on_board_exec(w, h) || !all_on_board(&self.you.body, w, h) {
            return false;
        }
        let mut i: usize = 0;
        while i < self.board.snakes.len()
            invariant
                w == self.board.width,
                h == self.board.height,
                i <= self.board.snakes.len(),
                forall|j: int| 0 <= j < i ==> #[trigger] self.board.snakes[j].head.on_board(w as int, h as int),
                forall|j: int| 0 <= j < i ==> #[trigger] self.board.snakes[j].body.len() >= 1,
                forall|j: int, k: int|
                    0 <= j < i && 0 <= k < self.board.snakes[j].body.len() ==> #[trigger] self.board.snakes[j].body[k].on_board(
                        w as int,
                        h as int,
                    ),
            decreases self.board.snakes.len() - i,
        {
            let s = &self.board.snakes[i];
            if !s.head.on_board_exec(w, h) || s.body.len() == 0 || !all_on_board(&s.body, w, h) {
                return false;
            }
            i += 1;
        }
        proof {
            assert forall|i: int, k: int|
                0 <= i < self.board.snakes.len() && 0 <= k < self.board.snakes[i].body.len() implies #[trigger] self.board.snakes[i].body[k].index_fits(
                w as int,
            ) by {
                let c = self.board.snakes[i].body[k];
                assert(c.on_board(w as int, h as int));
                let (cx, cy, wi, hi) = (c.x as int, c.y as int, w as int, h as int);
                assert(0 <= cy * wi && cy * wi + cx < 128) by (nonlinear_arith)
                    requires
                        0 <= cx < wi,
                        0 <= cy < hi,
                        wi * hi <= 128,
                ;
            }
        }
        true
    }
}

} // verus!
