//! The set of blocked cells of one tick, and how it is built from a snapshot.

use std::collections::HashSet;
use vstd::prelude::*;
use vstd::arithmetic::div_mod::lemma_fundamental_div_mod_converse;
use crate::grid::{Point, adjacent, spec_step};

verus! {

pub open spec fn key_base() -> int {
    0x1_0000_0000_0000_0000
}

/// The hash key of a point: `x * 2^64 + (y + 2^63)`, one-to-one on points.
pub open spec fn point_key(p: Point) -> int {
    p.x as int * key_base() + (p.y as int + 0x8000_0000_0000_0000)
}

pub proof fn lemma_point_key_injective(p: Point, q: Point)
    requires
        point_key(p) == point_key(q),
    ensures
        p == q,
{
    let rp = p.y as int + 0x8000_0000_0000_0000;
    let rq = q.y as int + 0x8000_0000_0000_0000;
    lemma_fundamental_div_mod_converse(point_key(p), key_base(), p.x as int, rp);
    lemma_fundamental_div_mod_converse(point_key(q), key_base(), q.x as int, rq);
}

proof fn lemma_point_key_range(p: Point)
    ensures
        i128::MIN <= point_key(p) <= i128::MAX,
{
    assert(i128::MIN <= point_key(p) <= i128::MAX) by (nonlinear_arith)
        requires
            i64::MIN <= p.x <= i64::MAX,
            i64::MIN <= p.y <= i64::MAX,
            point_key(p) == p.x as int * 0x1_0000_0000_0000_0000 + (p.y as int
                + 0x8000_0000_0000_0000),
    ;
}

fn key_of(p: Point) -> (r: i128)
    ensures
        r == point_key(p),
{
    proof {
        lemma_point_key_range(p);
        assert(i128::MIN <= p.x as int * key_base() <= i128::MAX) by (nonlinear_arith)
            requires
                i64::MIN <= p.x <= i64::MAX,
                key_base() == 0x1_0000_0000_0000_0000,
        ;
    }
    (p.x as i128) * 0x1_0000_0000_0000_0000i128 + (p.y as i128 + 0x8000_0000_0000_0000i128)
}

/// A set of points, held as a hash set of their keys.
pub struct ObstacleSet {
    keys: HashSet<i128>,
}

impl View for ObstacleSet {
    type V = Set<Point>;

    closed spec fn view(&self) -> Set<Point> {
        Set::new(|p: Point| self.keys@.contains(point_key(p) as i128))
    }
}

impl ObstacleSet {
    pub fn new() -> (r: ObstacleSet)
        ensures
            r@ == Set::<Point>::empty(),
    {
        let r = ObstacleSet { keys: HashSet::new() };
        assert(r@ =~= Set::<Point>::empty());
        r
    }

    pub fn insert(&mut self, p: Point)
        ensures
            final(self)@ == old(self)@.insert(p),
    {
        let k = key_of(p);
        self.keys.insert(k);
        proof {
            assert forall|q: Point| #[trigger] final(self)@.contains(q) == old(self)@.insert(p).contains(q) by {
                lemma_point_key_range(q);
                if point_key(q) == point_key(p) {
                    lemma_point_key_injective(p, q);
                }
            }
            assert(final(self)@ =~= old(self)@.insert(p));
        }
    }

    pub fn contains(&self, p: Point) -> (r: bool)
        ensures
            r == self@.contains(p),
    {
        let k = key_of(p);
        self.keys.contains(&k)
    }
}

/// Point `i` of a flat list of coordinate pairs.
pub open spec fn pair_point(s: Seq<i32>, i: int) -> Point {
    Point { x: s[2 * i] as i64, y: s[2 * i + 1] as i64 }
}

/// The number of whole agents (eight numbers each) in a flat list.
pub open spec fn agent_total(others: Seq<i32>) -> int {
    others.len() as int / 8
}

/// `p` is one of the first `k` points of the agents' list and not a tail.
pub open spec fn segment_among(others: Seq<i32>, k: int, p: Point) -> bool {
    exists|j: int| 0 <= j < k && j % 4 != 3 && p == #[trigger] pair_point(others, j)
}

/// `p` is a non-tail segment of another agent.
pub open spec fn other_segment(others: Seq<i32>, p: Point) -> bool {
    segment_among(others, 4 * agent_total(others), p)
}

/// `p` lies on a horizontal wall row at a column below `k`.
pub open spec fn wall_rows(n: int, k: int, p: Point) -> bool {
    0 <= p.x < k && (p.y == 0 || p.y == n + 1)
}

/// `p` lies on a vertical wall column at a row below `k`.
pub open spec fn wall_cols(n: int, k: int, p: Point) -> bool {
    0 <= p.y < k && (p.x == 0 || p.x == n + 1)
}

/// `p` is on the ring of cells just outside `[1, n]`.
pub open spec fn wall(n: int, p: Point) -> bool {
    (0 <= p.x <= n + 1 && (p.y == 0 || p.y == n + 1)) || (0 <= p.y <= n + 1 && (p.x == 0
        || p.x == n + 1))
}

/// `p` is an orthogonal neighbour of the head of one of the first `k` agents.
pub open spec fn near_head_among(others: Seq<i32>, k: int, p: Point) -> bool {
    exists|a: int| 0 <= a < k && adjacent(p, #[trigger] pair_point(others, 4 * a))
}

/// `p` is an orthogonal neighbour of another agent's head.
pub open spec fn near_other_head(others: Seq<i32>, p: Point) -> bool {
    near_head_among(others, agent_total(others), p)
}

/// Whether `p` is blocked this tick: the cell behind the own head, a non-tail
/// segment of another agent, the wall ring, or (with more than two agents) a
/// cell next to another agent's head.
pub open spec fn blocked(n: int, agent_count: int, second: Point, others: Seq<i32>, p: Point) -> bool {
    ||| p == second
    ||| other_segment(others, p)
    ||| wall(n, p)
    ||| (agent_count > 2 && near_other_head(others, p))
}

/// An agent's body: head first, tail last.
pub struct Snake {
    pub body: Vec<Point>,
}

impl Snake {
    pub fn head(&self) -> (r: Point)
        requires
            self.body@.len() >= 1,
        ensures
            r == self.body@[0],
    {
        self.body[0]
    }

    pub fn second(&self) -> (r: Point)
        requires
            self.body@.len() >= 2,
        ensures
            r == self.body@[1],
    {
        self.body[1]
    }
}

/// Reads a flat list `x0, y0, x1, y1, ...` as points; a trailing odd number
/// is ignored.
pub fn parse_points(data: &[i32]) -> (r: Vec<Point>)
    ensures
        r@.len() == data@.len() / 2,
        forall|i: int| 0 <= i < r@.len() ==> r@[i] == pair_point(data@, i),
{
    let mut body: Vec<Point> = Vec::new();
    let count: usize = data.len() / 2;
    let mut i: usize = 0;
    while i < count
        invariant
            count == data@.len() / 2,
            data@.len() == data.len(),
            i <= count,
            body@.len() == i,
            forall|j: int| 0 <= j < i ==> body@[j] == pair_point(data@, j),
        decreases count - i,
    {
        body.push(Point { x: data[2 * i] as i64, y: data[2 * i + 1] as i64 });
        i = i + 1;
    }
    body
}

/// Reads a flat list `x0, y0, x1, y1, ...` as a body, head first.
pub fn parse_snake(data: &[i32]) -> (r: Snake)
    ensures
        r.body@.len() == data@.len() / 2,
        forall|i: int| 0 <= i < r.body@.len() ==> r.body@[i] == pair_point(data@, i),
{
    Snake { body: parse_points(data) }
}

/// Builds this tick's obstacle set for the agent `me` on an `n`×`n` board,
/// with `others` holding the other agents' bodies, eight numbers each.
pub fn build_obstacles(n: i32, agent_count: i32, me: &Snake, others: &[i32]) -> (r: ObstacleSet)
    requires
        me.body@.len() >= 2,
    ensures
        forall|p: Point| #[trigger]
            r@.contains(p) == blocked(n as int, agent_count as int, me.body@[1], others@, p),
{
    let mut r = ObstacleSet::new();
    let second = me.second();
    r.insert(second);

    let total: usize = others.len() / 8;
    let m: usize = 4 * total;
    let mut i: usize = 0;
    while i < m
        invariant
            total == agent_total(others@),
            m == 4 * total,
            others@.len() == others.len(),
            i <= m,
            me.body@.len() >= 2,
            second == me.body@[1],
            forall|p: Point| #[trigger] r@.contains(p) == (p == second || segment_among(others@, i as int, p)),
        decreases m - i,
    {
        if i % 4 != 3 {
            let q = Point { x: others[2 * i] as i64, y: others[2 * i + 1] as i64 };
            r.insert(q);
            assert(q == pair_point(others@, i as int));
        }
        proof {
            assert forall|p: Point| segment_among(others@, i + 1, p) == (segment_among(others@, i as int, p)
                || (i % 4 != 3 && p == pair_point(others@, i as int))) by {
                if segment_among(others@, i + 1, p) {
                    let j = choose|j: int| 0 <= j < i + 1 && j % 4 != 3 && p == #[trigger] pair_point(others@, j);
                    if j < i {
                        assert(segment_among(others@, i as int, p));
                    }
                }
                if i % 4 != 3 && p == pair_point(others@, i as int) {
                    assert(segment_among(others@, i + 1, p));
                }
            }
        }
        i = i + 1;
    }

    let nn: i64 = n as i64;
    let mut x: i64 = 0;
    while x <= nn + 1
        invariant
            nn == n,
            0 <= x,
            x <= nn + 2 || x == 0,
            forall|p: Point| #[trigger] r@.contains(p) == (p == second || other_segment(others@, p)
                || wall_rows(nn as int, x as int, p)),
        decreases nn + 2 - x,
    {
        r.insert(Point { x, y: 0 });
        r.insert(Point { x, y: nn + 1 });
        x = x + 1;
    }
    let mut y: i64 = 0;
    while y <= nn + 1
        invariant
            nn == n,
            0 <= y,
            y <= nn + 2 || y == 0,
            forall|p: Point| #[trigger] r@.contains(p) == (p == second || other_segment(others@, p)
                || wall_rows(nn as int, nn + 2, p) || wall_cols(nn as int, y as int, p)),
        decreases nn + 2 - y,
    {
        r.insert(Point { x: 0, y });
        r.insert(Point { x: nn + 1, y });
        y = y + 1;
    }
    assert forall|p: Point| #[trigger] r@.contains(p) == (p == second || other_segment(others@, p) || wall(
        n as int,
        p,
    )) by {}

    if agent_count > 2 {
        let mut a: usize = 0;
        while a < total
            invariant
                total == agent_total(others@),
                others@.len() == others.len(),
                a <= total,
                agent_count > 2,
                forall|p: Point| #[trigger] r@.contains(p) == (p == second || other_segment(others@, p)
                    || wall(n as int, p) || near_head_among(others@, a as int, p)),
            decreases total - a,
        {
            let h = Point { x: others[8 * a] as i64, y: others[8 * a + 1] as i64 };
            assert(h == pair_point(others@, 4 * a));
            let mut d: usize = 0;
            while d < 4
                invariant
                    d <= 4,
                    a < total,
                    total == agent_total(others@),
                    h == pair_point(others@, 4 * a),
                    -0x8000_0000 <= h.x < 0x8000_0000,
                    -0x8000_0000 <= h.y < 0x8000_0000,
                    forall|p: Point| #[trigger] r@.contains(p) == (p == second || other_segment(others@, p)
                        || wall(n as int, p) || near_head_among(others@, a as int, p)
                        || exists|e: int| 0 <= e < d && p == spec_step(h, e)),
                decreases 4 - d,
            {
                let q = h.step(d);
                r.insert(q);
                d = d + 1;
            }
            proof {
                assert forall|p: Point| near_head_among(others@, a + 1, p) == (near_head_among(
                    others@,
                    a as int,
                    p,
                ) || exists|e: int| 0 <= e < 4 && p == spec_step(h, e)) by {
                    if near_head_among(others@, a + 1, p) {
                        let b = choose|b: int| 0 <= b < a + 1 && adjacent(p, #[trigger] pair_point(others@, 4 * b));
                        if b < a {
                            assert(near_head_among(others@, a as int, p));
                        } else {
                            assert(adjacent(p, h));
                            if p.x == h.x && p.y == h.y + 1 {
                                assert(p == spec_step(h, 0));
                            } else if p.x == h.x - 1 && p.y == h.y {
                                assert(p == spec_step(h, 1));
                            } else if p.x == h.x && p.y == h.y - 1 {
                                assert(p == spec_step(h, 2));
                            } else {
                                assert(p == spec_step(h, 3));
                            }
                        }
                    }
                    if exists|e: int| 0 <= e < 4 && p == spec_step(h, e) {
                        let e = choose|e: int| 0 <= e < 4 && p == spec_step(h, e);
                        assert(adjacent(p, pair_point(others@, 4 * a)));
                        assert(near_head_among(others@, a + 1, p));
                    }
                }
            }
            a = a + 1;
        }
    }
    r
}

/// Points `lo` up to `hi` (exclusive) of a flat list of coordinate pairs.
pub open spec fn points_in(data: Seq<i32>, lo: int, hi: int) -> Set<Point> {
    Set::new(|p: Point| exists|i: int| lo <= i < hi && p == #[trigger] pair_point(data, i))
}

/// Inserts points `lo` up to `hi` (exclusive) of the flat list `data`.
pub fn insert_points(set: &mut ObstacleSet, data: &[i32], lo: usize, hi: usize)
    requires
        lo <= hi,
        2 * hi <= data@.len(),
    ensures
        final(set)@ == old(set)@.union(points_in(data@, lo as int, hi as int)),
{
    let mut i: usize = lo;
    while i < hi
        invariant
            lo <= i <= hi,
            2 * hi <= data@.len(),
            data@.len() == data.len(),
            set@ == old(set)@.union(points_in(data@, lo as int, i as int)),
        decreases hi - i,
    {
        let q = Point { x: data[2 * i] as i64, y: data[2 * i + 1] as i64 };
        assert(q == pair_point(data@, i as int));
        set.insert(q);
        proof {
            assert forall|p: Point| #[trigger] points_in(data@, lo as int, i + 1).contains(p) == (points_in(
                data@,
                lo as int,
                i as int,
            ).contains(p) || p == q) by {
                if points_in(data@, lo as int, i + 1).contains(p) {
                    let k = choose|k: int| lo <= k < i + 1 && p == #[trigger] pair_point(data@, k);
                    if k < i {
                        assert(points_in(data@, lo as int, i as int).contains(p));
                    }
                }
                if p == q {
                    assert(points_in(data@, lo as int, i + 1).contains(p));
                }
            }
            assert(set@ =~= old(set)@.union(points_in(data@, lo as int, i + 1)));
        }
        i = i + 1;
    }
}

} // verus!
