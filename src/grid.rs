//! Points, the legal coordinate range of an `n`×`n` board, and direction codes.

use vstd::prelude::*;

verus! {

/// A cell of the board. Coordinates are wide enough that a neighbour of any
/// `i32` position is representable.
#[derive(Clone, Copy, PartialEq, Eq, Structural, Debug, Hash)]
pub struct Point {
    pub x: i64,
    pub y: i64,
}

/// `p` lies in the legal range `[1, n]` on both axes.
pub open spec fn spec_in_bounds(n: int, p: Point) -> bool {
    1 <= p.x <= n && 1 <= p.y <= n
}

pub open spec fn abs_diff(a: int, b: int) -> int {
    if a >= b { a - b } else { b - a }
}

/// Manhattan distance `|dx| + |dy|`.
pub open spec fn spec_manhattan(a: Point, b: Point) -> int {
    abs_diff(a.x as int, b.x as int) + abs_diff(a.y as int, b.y as int)
}

/// `a` and `b` differ by exactly one unit in exactly one axis.
pub open spec fn adjacent(a: Point, b: Point) -> bool {
    spec_manhattan(a, b) == 1
}

/// The direction code of the move from `head` to `next`: up `(0,+1)` is 0,
/// left `(-1,0)` is 1, down `(0,-1)` is 2, right `(+1,0)` is 3, and any other
/// offset is -1.
pub open spec fn direction_code(head: Point, next: Point) -> int {
    if next.x == head.x && next.y == head.y + 1 {
        0
    } else if next.x == head.x - 1 && next.y == head.y {
        1
    } else if next.x == head.x && next.y == head.y - 1 {
        2
    } else if next.x == head.x + 1 && next.y == head.y {
        3
    } else {
        -1
    }
}

/// The neighbour of `p` in direction `d` (0 up, 1 left, 2 down, 3 right).
pub open spec fn spec_step(p: Point, d: int) -> Point {
    if d == 0 {
        Point { x: p.x, y: (p.y + 1) as i64 }
    } else if d == 1 {
        Point { x: (p.x - 1) as i64, y: p.y }
    } else if d == 2 {
        Point { x: p.x, y: (p.y - 1) as i64 }
    } else {
        Point { x: (p.x + 1) as i64, y: p.y }
    }
}

/// Legality test: `1 <= p.x <= n` and `1 <= p.y <= n`.
pub fn in_bounds(n: i64, p: Point) -> (r: bool)
    ensures
        r == spec_in_bounds(n as int, p),
{
    1 <= p.x && p.x <= n && 1 <= p.y && p.y <= n
}

impl Point {
    /// Manhattan distance to `other`, for points of the board or near it.
    pub fn manhattan(&self, other: &Point) -> (r: i64)
        requires
            -0x2000_0000_0000_0000 <= self.x < 0x2000_0000_0000_0000,
            -0x2000_0000_0000_0000 <= self.y < 0x2000_0000_0000_0000,
            -0x2000_0000_0000_0000 <= other.x < 0x2000_0000_0000_0000,
            -0x2000_0000_0000_0000 <= other.y < 0x2000_0000_0000_0000,
        ensures
            r == spec_manhattan(*self, *other),
    {
        let dx = if self.x >= other.x { self.x - other.x } else { other.x - self.x };
        let dy = if self.y >= other.y { self.y - other.y } else { other.y - self.y };
        dx + dy
    }

    /// The neighbour in direction `d` (0 up, 1 left, 2 down, 3 right).
    pub fn step(&self, d: usize) -> (r: Point)
        requires
            d < 4,
            i64::MIN < self.x < i64::MAX,
            i64::MIN < self.y < i64::MAX,
        ensures
            r == spec_step(*self, d as int),
            adjacent(*self, r),
            direction_code(*self, r) == d,
    {
        if d == 0 {
            Point { x: self.x, y: self.y + 1 }
        } else if d == 1 {
            Point { x: self.x - 1, y: self.y }
        } else if d == 2 {
            Point { x: self.x, y: self.y - 1 }
        } else {
            Point { x: self.x + 1, y: self.y }
        }
    }
}

/// Maps the offset from `head` to `next` to its direction code, or -1 when
/// the two are not orthogonal neighbours.
pub fn decide_direction(head: Point, next: Point) -> (r: i32)
    requires
        i64::MIN < head.x < i64::MAX,
        i64::MIN < head.y < i64::MAX,
    ensures
        r == direction_code(head, next),
        r == -1 <==> !adjacent(head, next),
{
    if next.x == head.x && next.y == head.y + 1 {
        0
    } else if next.x == head.x - 1 && next.y == head.y {
        1
    } else if next.x == head.x && next.y == head.y - 1 {
        2
    } else if next.x == head.x + 1 && next.y == head.y {
        3
    } else {
        -1
    }
}

} // verus!
