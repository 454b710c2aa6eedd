use vstd::prelude::*;

verus! {

/// One of the four moves a player can make.
#[derive(Clone, Copy, Debug, PartialEq, Eq)]
pub enum Direction {
    Up,
    Down,
    Left,
    Right,
}

impl Direction {
    /// Position in the fixed tie-breaking order: up, down, left, right.
    pub open spec fn rank(self) -> int {
        match self {
            Direction::Up => 0,
            Direction::Down => 1,
            Direction::Left => 2,
            Direction::Right => 3,
        }
    }

    /// The word that names the move on the wire.
    pub open spec fn spelling(self) -> Seq<char> {
        match self {
            Direction::Up => "up"@,
            Direction::Down => "down"@,
            Direction::Left => "left"@,
            Direction::Right => "right"@,
        }
    }

    /// The direction at position `i` of the tie-breaking order.
    pub fn by_rank(i: usize) -> (r: Direction)
        requires
            i < 4,
        ensures
            r.rank() == i,
    {
        if i == 0 {
            Direction::Up
        } else if i == 1 {
            Direction::Down
        } else if i == 2 {
            Direction::Left
        } else {
            Direction::Right
        }
    }

    /// The word that names the move on the wire.
    pub fn word(&self) -> (r: &'static str)
        ensures
            r@ == self.spelling(),
    {
        match self {
            Direction::Up => "up",
            Direction::Down => "down",
            Direction::Left => "left",
            Direction::Right => "right",
        }
    }
}

/// The cell one move away from `c` on a `w` by `h` torus: leaving one edge
/// re-enters at the opposite edge. Up lowers the row, left lowers the column.
pub open spec fn step(c: (int, int), d: Direction, w: int, h: int) -> (int, int) {
    match d {
        Direction::Up => (c.0, if c.1 == 0 { h - 1 } else { c.1 - 1 }),
        Direction::Down => (c.0, if c.1 + 1 == h { 0 } else { c.1 + 1 }),
        Direction::Left => (if c.0 == 0 { w - 1 } else { c.0 - 1 }, c.1),
        Direction::Right => (if c.0 + 1 == w { 0 } else { c.0 + 1 }, c.1),
    }
}

/// `b` is one move away from `a` on a `w` by `h` torus.
pub open spec fn adjacent(a: (int, int), b: (int, int), w: int, h: int) -> bool {
    ||| step(a, Direction::Up, w, h) == b
    ||| step(a, Direction::Down, w, h) == b
    ||| step(a, Direction::Left, w, h) == b
    ||| step(a, Direction::Right, w, h) == b
}

/// A coordinate pair of machine integers, seen as a cell.
pub open spec fn as_cell(p: (usize, usize)) -> (int, int) {
    (p.0 as int, p.1 as int)
}

/// Moves from `(x, y)` one cell in direction `d` on a `w` by `h` torus.
pub fn step_from(x: usize, y: usize, d: Direction, w: usize, h: usize) -> (r: (usize, usize))
    requires
        x < w,
        y < h,
    ensures
        as_cell(r) == step((x as int, y as int), d, w as int, h as int),
        r.0 < w,
        r.1 < h,
{
    match d {
        Direction::Up => (x, if y == 0 { h - 1 } else { y - 1 }),
        Direction::Down => (x, if y + 1 == h { 0 } else { y + 1 }),
        Direction::Left => (if x == 0 { w - 1 } else { x - 1 }, y),
        Direction::Right => (if x + 1 == w { 0 } else { x + 1 }, y),
    }
}

} // verus!
