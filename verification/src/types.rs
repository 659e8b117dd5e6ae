//! Directions and board coordinates.
use vstd::prelude::*;

verus! {

/// One of the four moves a snake can make.
#[derive(Clone, Copy, PartialEq, Eq, Debug, Hash, Structural)]
pub enum Direction {
    Up,
    Down,
    Left,
    Right,
}

/// The column offset of a move, as a mathematical integer.
pub open spec fn dir_dx(d: Direction) -> int {
    match d {
        Direction::Left => -1,
        Direction::Right => 1,
        _ => 0,
    }
}

/// The row offset of a move (up increases `y`).
pub open spec fn dir_dy(d: Direction) -> int {
    match d {
        Direction::Up => 1,
        Direction::Down => -1,
        _ => 0,
    }
}

/// The position of a direction in `Direction::ALL`.
pub open spec fn dir_index(d: Direction) -> int {
    match d {
        Direction::Up => 0,
        Direction::Down => 1,
        Direction::Left => 2,
        Direction::Right => 3,
    }
}

/// The direction at position `i` of `Direction::ALL`; every index past 2 means `Right`.
pub open spec fn dir_of_index(i: int) -> Direction {
    if i == 0 {
        Direction::Up
    } else if i == 1 {
        Direction::Down
    } else if i == 2 {
        Direction::Left
    } else {
        Direction::Right
    }
}

pub open spec fn dir_opposite(d: Direction) -> Direction {
    match d {
        Direction::Up => Direction::Down,
        Direction::Down => Direction::Up,
        Direction::Left => Direction::Right,
        Direction::Right => Direction::Left,
    }
}

impl Direction {
    /// The four directions in the order the engine tries them.
    pub const ALL: [Direction; 4] = [Direction::Up, Direction::Down, Direction::Left, Direction::Right];

    /// The name of the move in the game's protocol.
    pub fn to_str(self) -> (s: &'static str)
        ensures
            s@ == (match self {
                Direction::Up => "up"@,
                Direction::Down => "down"@,
                Direction::Left => "left"@,
                Direction::Right => "right"@,
            }),
    {
        match self {
            Direction::Up => "up",
            Direction::Down => "down",
            Direction::Left => "left",
            Direction::Right => "right",
        }
    }

    pub fn dx(self) -> (r: i32)
        ensures
            r == dir_dx(self),
    {
        match self {
            Direction::Left => -1,
            Direction::Right => 1,
            _ => 0,
        }
    }

    pub fn dy(self) -> (r: i32)
        ensures
            r == dir_dy(self),
    {
        match self {
            Direction::Up => 1,
            Direction::Down => -1,
            _ => 0,
        }
    }

    pub fn to_index(self) -> (r: usize)
        ensures
            r == dir_index(self),
    {
        match self {
            Direction::Up => 0,
            Direction::Down => 1,
            Direction::Left => 2,
            Direction::Right => 3,
        }
    }

    pub fn from_index(i: usize) -> (d: Direction)
        ensures
            d == dir_of_index(i as int),
    {
        match i {
            0 => Direction::Up,
            1 => Direction::Down,
            2 => Direction::Left,
            _ => Direction::Right,
        }
    }

    pub fn opposite(self) -> (d: Direction)
        ensures
            d == dir_opposite(self),
    {
        match self {
            Direction::Up => Direction::Down,
            Direction::Down => Direction::Up,
            Direction::Left => Direction::Right,
            Direction::Right => Direction::Left,
        }
    }
}

/// Converting a direction to its index and back gives the direction again.
pub proof fn lemma_index_round_trip(d: Direction)
    ensures
        dir_of_index(dir_index(d)) == d,
        0 <= dir_index(d) < 4,
{
}

/// The opposite of the opposite is the direction itself, and opposite moves cancel.
pub proof fn lemma_opposite_involution(d: Direction)
    ensures
        dir_opposite(dir_opposite(d)) == d,
        dir_dx(dir_opposite(d)) == -dir_dx(d),
        dir_dy(dir_opposite(d)) == -dir_dy(d),
        dir_opposite(d) != d,
{
}

/// Whether the neighbour of `c` in direction `d` still has `i32` coordinates:
/// only the coordinate that moves is bounded.
pub open spec fn step_fits(c: Coord, d: Direction) -> bool {
    &&& i32::MIN <= c.x + dir_dx(d) <= i32::MAX
    &&& i32::MIN <= c.y + dir_dy(d) <= i32::MAX
}

/// The neighbour of `c` in direction `d`.
pub open spec fn coord_step(c: Coord, d: Direction) -> Coord {
    Coord { x: (c.x + dir_dx(d)) as i32, y: (c.y + dir_dy(d)) as i32 }
}

/// A cell of the board; `y` grows upwards.
#[derive(Clone, Copy, PartialEq, Eq, Debug, Hash, Default, Structural)]
pub struct Coord {
    pub x: i32,
    pub y: i32,
}

/// The Manhattan distance between two points.
pub open spec fn manhattan_spec(x1: int, y1: int, x2: int, y2: int) -> int {
    (if x1 >= x2 { x1 - x2 } else { x2 - x1 }) + (if y1 >= y2 { y1 - y2 } else { y2 - y1 })
}

impl Coord {
    pub fn new(x: i32, y: i32) -> (c: Coord)
        ensures
            c.x == x,
            c.y == y,
    {
        Coord { x, y }
    }

    /// The neighbouring cell in direction `dir`.
    pub fn step(self, dir: Direction) -> (c: Coord)
        requires
            step_fits(self, dir),
        ensures
            c == coord_step(self, dir),
            c.x == self.x + dir_dx(dir),
            c.y == self.y + dir_dy(dir),
    {
        Coord { x: self.x + dir.dx(), y: self.y + dir.dy() }
    }

    /// The Manhattan distance to `other`.
    pub fn manhattan(self, other: Coord) -> (d: i32)
        requires
            manhattan_spec(self.x as int, self.y as int, other.x as int, other.y as int) <= i32::MAX,
            i32::MIN <= self.x - other.x,
            i32::MIN <= self.y - other.y,
            self.x - other.x <= i32::MAX,
            self.y - other.y <= i32::MAX,
        ensures
            d == manhattan_spec(self.x as int, self.y as int, other.x as int, other.y as int),
    {
        let dx = self.x - other.x;
        let dy = self.y - other.y;
        let ax: i32 = if dx >= 0 { dx } else { -dx };
        let ay: i32 = if dy >= 0 { dy } else { -dy };
        ax + ay
    }

    /// The row-major index of the cell on a board of the given width.
    pub fn to_idx(self, width: i32) -> (i: usize)
        requires
            i32::MIN <= self.y * width <= i32::MAX,
            i32::MIN <= self.y * width + self.x <= i32::MAX,
        ensures
            i == #[verifier::truncate] ((self.y * width + self.x) as usize),
    {
        #[verifier::truncate] ((self.y * width + self.x) as usize)
    }

    /// The cell with row-major index `idx` on a board of the given width.
    pub fn from_idx(idx: usize, width: i32) -> (c: Coord)
        requires
            width > 0,
            idx <= i32::MAX,
        ensures
            c.x == idx as int % width as int,
            c.y == idx as int / width as int,
    {
        let i = idx as i32;
        Coord { x: i % width, y: i / width }
    }

    pub fn is_in_bounds(self, width: i32, height: i32) -> (b: bool)
        ensures
            b == (0 <= self.x < width && 0 <= self.y < height),
    {
        self.x >= 0 && self.x < width && self.y >= 0 && self.y < height
    }
}

impl core::ops::Add<Direction> for Coord {
    type Output = Coord;

    /// `c + d` is the neighbour of `c` in direction `d`.
    fn add(self, dir: Direction) -> (c: Coord)
        ensures
            c == coord_step(self, dir),
    {
        self.step(dir)
    }
}

impl vstd::std_specs::ops::AddSpecImpl<Direction> for Coord {
    open spec fn obeys_add_spec() -> bool {
        true
    }

    open spec fn add_req(self, rhs: Direction) -> bool {
        step_fits(self, rhs)
    }

    open spec fn add_spec(self, rhs: Direction) -> Coord {
        coord_step(self, rhs)
    }
}

/// A step lands at Manhattan distance one, and stepping back the opposite way
/// returns to the starting cell (which is then always in range).
pub proof fn lemma_step_back(c: Coord, d: Direction)
    requires
        step_fits(c, d),
    ensures
        manhattan_spec(coord_step(c, d).x as int, coord_step(c, d).y as int, c.x as int, c.y as int) == 1,
        step_fits(coord_step(c, d), dir_opposite(d)),
        coord_step(coord_step(c, d), dir_opposite(d)) == c,
{
}

/// Converting a cell to its index and back gives the cell again.
pub proof fn lemma_idx_round_trip(x: int, y: int, w: int)
    requires
        w > 0,
        0 <= x < w,
        0 <= y,
    ensures
        (y * w + x) % w == x,
        (y * w + x) / w == y,
{
    vstd::arithmetic::div_mod::lemma_fundamental_div_mod_converse(y * w + x, w, y, x);
}

} // verus!
