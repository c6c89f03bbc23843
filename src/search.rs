//! A* shortest-path search over the 4-connected board.

use vstd::prelude::*;
use vstd::arithmetic::div_mod::lemma_fundamental_div_mod_converse;
use vstd::set_lib::{set_int_range, lemma_int_range, lemma_len_subset};
use crate::grid::{Point, spec_in_bounds, adjacent, in_bounds, spec_step, spec_manhattan};
use crate::obstacles::ObstacleSet;

verus! {

/// `path` leads from `start` to `goal` through orthogonal unit steps, stays in
/// `[1, n]`, and enters no cell of `obstacles` after leaving `start`.
pub open spec fn is_path(n: int, start: Point, goal: Point, obstacles: Set<Point>, path: Seq<Point>) -> bool {
    &&& path.len() >= 1
    &&& path[0] == start
    &&& path[path.len() - 1] == goal
    &&& forall|i: int| 0 <= i < path.len() - 1 ==> adjacent(#[trigger] path[i], path[i + 1])
    &&& forall|i: int| 0 <= i < path.len() ==> spec_in_bounds(n, #[trigger] path[i])
    &&& forall|i: int| 0 < i < path.len() ==> !obstacles.contains(#[trigger] path[i])
}

/// Row-major position of an in-bounds cell in the search tables.
pub open spec fn cell_index(n: int, p: Point) -> int {
    (p.y - 1) * n + (p.x - 1)
}

proof fn lemma_cell_index(n: int, p: Point)
    requires
        n >= 1,
        spec_in_bounds(n, p),
    ensures
        0 <= cell_index(n, p) < n * n,
        cell_index(n, p) / n == p.y - 1,
        cell_index(n, p) % n == p.x - 1,
{
    lemma_fundamental_div_mod_converse(cell_index(n, p), n, p.y - 1, p.x - 1);
    assert(0 <= cell_index(n, p) < n * n) by (nonlinear_arith)
        requires
            0 <= p.y - 1 < n,
            0 <= p.x - 1 < n,
            cell_index(n, p) == (p.y - 1) * n + (p.x - 1),
    ;
}

proof fn lemma_cell_index_injective(n: int, p: Point, q: Point)
    requires
        n >= 1,
        spec_in_bounds(n, p),
        spec_in_bounds(n, q),
        cell_index(n, p) == cell_index(n, q),
    ensures
        p == q,
{
    lemma_cell_index(n, p);
    lemma_cell_index(n, q);
}

fn index_of(n: i32, p: Point) -> (r: usize)
    requires
        n >= 1,
        n * n <= usize::MAX,
        spec_in_bounds(n as int, p),
    ensures
        r == cell_index(n as int, p),
        r < n * n,
{
    proof {
        lemma_cell_index(n as int, p);
        assert(0 <= (p.y - 1) * n <= n * n) by (nonlinear_arith)
            requires
                0 <= p.y - 1 < n,
                n >= 1,
        ;
        assert(n * n <= 0x4000_0000_0000_0000) by (nonlinear_arith)
            requires
                1 <= n <= 0x8000_0000,
        ;
    }
    ((p.y - 1) * (n as i64) + (p.x - 1)) as usize
}

fn filled<T: Copy>(len: usize, v: T) -> (r: Vec<T>)
    ensures
        r@ == Seq::new(len as nat, |i: int| v),
{
    let mut r: Vec<T> = Vec::new();
    let mut i: usize = 0;
    while i < len
        invariant
            i <= len,
            r@ == Seq::new(i as nat, |k: int| v),
        decreases len - i,
    {
        r.push(v);
        i = i + 1;
        assert(r@ =~= Seq::new(i as nat, |k: int| v));
    }
    r
}

/// What the search tables say of every cell with a known cost: the cost is at
/// most `bound`, and each cell but `start` is unblocked and has an in-bounds
/// predecessor next to it with a strictly lower cost.
pub open spec fn costs_sound(
    n: int,
    start: Point,
    obstacles: Set<Point>,
    g: Seq<u64>,
    came: Seq<Point>,
    bound: int,
) -> bool {
    forall|p: Point|
        #![trigger g[cell_index(n, p)]]
        spec_in_bounds(n, p) && g[cell_index(n, p)] != u64::MAX ==> {
            &&& g[cell_index(n, p)] <= bound
            &&& (p != start ==> {
                let q = came[cell_index(n, p)];
                &&& spec_in_bounds(n, q)
                &&& adjacent(q, p)
                &&& g[cell_index(n, q)] < g[cell_index(n, p)]
                &&& !obstacles.contains(p)
            })
        }
}

/// Every queued point is in bounds and has a known cost.
pub open spec fn queue_sound(n: int, g: Seq<u64>, open: Seq<(u64, Point)>) -> bool {
    forall|j: int|
        0 <= j < open.len() ==> spec_in_bounds(n, #[trigger] open[j].1) && g[cell_index(n, open[j].1)]
            != u64::MAX
}

/// The expanded flags agree with the set of expanded indices, which lies in
/// `[0, nn)`.
pub open spec fn closed_sound(nn: int, closed: Seq<bool>, closed_set: Set<int>) -> bool {
    &&& closed.len() == nn
    &&& closed_set.finite()
    &&& closed_set.subset_of(set_int_range(0, nn))
    &&& closed_set.len() <= nn
    &&& forall|i: int| 0 <= i < nn ==> (#[trigger] closed[i] == closed_set.contains(i))
}

/// Some path leads from `start` to `goal` on the board around `obstacles`.
pub open spec fn reachable(n: int, start: Point, goal: Point, obstacles: Set<Point>) -> bool {
    exists|path: Seq<Point>| is_path(n, start, goal, obstacles, path)
}

/// Each of the first `k` neighbours of `p` (up, left, down, right) that is in
/// bounds and unblocked is expanded, or has a known cost at most one above
/// that of `p`.
pub open spec fn neighbours_settled(
    n: int,
    obstacles: Set<Point>,
    g: Seq<u64>,
    closed: Seq<bool>,
    p: Point,
    k: int,
) -> bool {
    forall|d: int|
        0 <= d < k && spec_in_bounds(n, #[trigger] spec_step(p, d)) && !obstacles.contains(spec_step(p, d))
            ==> closed[cell_index(n, spec_step(p, d))] || (g[cell_index(n, spec_step(p, d))] != u64::MAX
            && g[cell_index(n, spec_step(p, d))] <= g[cell_index(n, p)] + 1)
}

/// Every expanded cell has a known cost and all its neighbours are settled.
pub open spec fn closed_expanded(n: int, obstacles: Set<Point>, g: Seq<u64>, closed: Seq<bool>) -> bool {
    forall|p: Point|
        #![trigger closed[cell_index(n, p)]]
        spec_in_bounds(n, p) && closed[cell_index(n, p)] ==> g[cell_index(n, p)] != u64::MAX
            && neighbours_settled(n, obstacles, g, closed, p, 4)
}

/// The cost of every expanded cell is at most the length of any path to it.
pub open spec fn closed_optimal(n: int, start: Point, obstacles: Set<Point>, g: Seq<u64>, closed: Seq<bool>) -> bool {
    forall|p: Point, q: Seq<Point>|
        #![trigger closed[cell_index(n, p)], is_path(n, start, p, obstacles, q)]
        spec_in_bounds(n, p) && closed[cell_index(n, p)] && is_path(n, start, p, obstacles, q) ==> g[cell_index(n, p)]
            <= q.len() - 1
}

/// Every cell with a known cost that is not expanded waits in the queue with
/// the estimate of its current cost.
pub open spec fn entries_tracked(n: int, goal: Point, g: Seq<u64>, closed: Seq<bool>, open: Seq<(u64, Point)>) -> bool {
    forall|p: Point|
        #![trigger g[cell_index(n, p)]]
        spec_in_bounds(n, p) && g[cell_index(n, p)] != u64::MAX && !closed[cell_index(n, p)] ==> exists|j: int|
            0 <= j < open.len() && (#[trigger] open[j]).1 == p && open[j].0 == g[cell_index(n, p)] + spec_manhattan(p, goal)
}

/// No queued estimate is below the current cost of its cell plus the
/// heuristic.
pub open spec fn entries_bounded(n: int, goal: Point, g: Seq<u64>, open: Seq<(u64, Point)>) -> bool {
    forall|j: int|
        0 <= j < open.len() ==> (#[trigger] open[j]).0 >= g[cell_index(n, open[j].1)] + spec_manhattan(open[j].1, goal)
}

proof fn lemma_adjacent_is_step(p: Point, q: Point)
    requires
        adjacent(p, q),
    ensures
        exists|d: int| 0 <= d < 4 && q == #[trigger] spec_step(p, d),
{
    if q.x == p.x && q.y == p.y + 1 {
        assert(q == spec_step(p, 0));
    } else if q.x == p.x - 1 && q.y == p.y {
        assert(q == spec_step(p, 1));
    } else if q.x == p.x && q.y == p.y - 1 {
        assert(q == spec_step(p, 2));
    } else {
        assert(q == spec_step(p, 3));
    }
}

proof fn lemma_path_prefix(n: int, start: Point, goal: Point, obstacles: Set<Point>, path: Seq<Point>, k: int)
    requires
        is_path(n, start, goal, obstacles, path),
        0 <= k < path.len(),
    ensures
        is_path(n, start, path[k], obstacles, path.subrange(0, k + 1)),
{
    let q = path.subrange(0, k + 1);
    assert forall|i: int| 0 <= i < q.len() - 1 implies adjacent(#[trigger] q[i], q[i + 1]) by {
        assert(q[i] == path[i] && q[i + 1] == path[i + 1]);
    }
    assert forall|i: int| 0 <= i < q.len() implies spec_in_bounds(n, #[trigger] q[i]) by {
        assert(q[i] == path[i]);
    }
    assert forall|i: int| 0 < i < q.len() implies !obstacles.contains(#[trigger] q[i]) by {
        assert(q[i] == path[i]);
    }
}

proof fn lemma_suffix_distance(n: int, start: Point, goal: Point, obstacles: Set<Point>, path: Seq<Point>, k: int, target: Point)
    requires
        is_path(n, start, goal, obstacles, path),
        0 <= k < path.len(),
    ensures
        spec_manhattan(path[k], target) <= path.len() - 1 - k + spec_manhattan(goal, target),
    decreases path.len() - k,
{
    if k < path.len() - 1 {
        lemma_suffix_distance(n, start, goal, obstacles, path, k + 1, target);
        assert(adjacent(path[k], path[k + 1]));
    }
}

proof fn lemma_path_known(
    n: int,
    start: Point,
    goal: Point,
    obstacles: Set<Point>,
    g: Seq<u64>,
    closed: Seq<bool>,
    open: Seq<(u64, Point)>,
    path: Seq<Point>,
    k: int,
)
    requires
        n >= 1,
        g.len() == n * n,
        closed.len() == n * n,
        open.len() == 0,
        g[cell_index(n, start)] != u64::MAX,
        closed_expanded(n, obstacles, g, closed),
        entries_tracked(n, goal, g, closed, open),
        is_path(n, start, goal, obstacles, path),
        0 <= k < path.len(),
    ensures
        g[cell_index(n, path[k])] != u64::MAX,
        closed[cell_index(n, path[k])],
    decreases k,
{
    if k > 0 {
        lemma_path_known(n, start, goal, obstacles, g, closed, open, path, k - 1);
        let p = path[k - 1];
        let q = path[k];
        assert(adjacent(p, q));
        lemma_adjacent_is_step(p, q);
        let d = choose|d: int| 0 <= d < 4 && q == #[trigger] spec_step(p, d);
        assert(spec_in_bounds(n, q));
        assert(!obstacles.contains(q));
        assert(neighbours_settled(n, obstacles, g, closed, p, 4));
        assert(g[cell_index(n, q)] != u64::MAX);
    }
    assert(spec_in_bounds(n, path[k]));
}

/// The cell `cur` taken from the queue with the least estimate, not yet
/// expanded, has a cost no greater than the length of `path` to it. The walk
/// along `path` has reached index `k` with cost at most `k`.
proof fn lemma_popped_optimal(
    n: int,
    start: Point,
    goal: Point,
    obstacles: Set<Point>,
    g: Seq<u64>,
    closed: Seq<bool>,
    open: Seq<(u64, Point)>,
    b: int,
    cur: Point,
    path: Seq<Point>,
    k: int,
)
    requires
        n >= 1,
        g.len() == n * n,
        closed.len() == n * n,
        0 <= b < open.len(),
        open[b].1 == cur,
        forall|j: int| 0 <= j < open.len() ==> open[b].0 <= #[trigger] open[j].0,
        spec_in_bounds(n, cur),
        !closed[cell_index(n, cur)],
        closed_expanded(n, obstacles, g, closed),
        closed_optimal(n, start, obstacles, g, closed),
        entries_tracked(n, goal, g, closed, open),
        entries_bounded(n, goal, g, open),
        is_path(n, start, cur, obstacles, path),
        0 <= k < path.len(),
        g[cell_index(n, path[k])] != u64::MAX,
        g[cell_index(n, path[k])] <= k,
    ensures
        g[cell_index(n, cur)] <= path.len() - 1,
    decreases path.len() - k,
{
    let u = path[k];
    assert(spec_in_bounds(n, u));
    if !closed[cell_index(n, u)] {
        let j = choose|j: int|
            0 <= j < open.len() && (#[trigger] open[j]).1 == u && open[j].0 == g[cell_index(n, u)] + spec_manhattan(u, goal);
        lemma_suffix_distance(n, start, cur, obstacles, path, k, goal);
        assert(open[b].0 >= g[cell_index(n, cur)] + spec_manhattan(cur, goal));
    } else {
        if k == path.len() - 1 {
            assert(u == cur);
        }
        let v = path[k + 1];
        assert(adjacent(u, v));
        assert(spec_in_bounds(n, v));
        assert(!obstacles.contains(v));
        lemma_adjacent_is_step(u, v);
        let d = choose|d: int| 0 <= d < 4 && v == #[trigger] spec_step(u, d);
        assert(neighbours_settled(n, obstacles, g, closed, u, 4));
        if closed[cell_index(n, v)] {
            lemma_path_prefix(n, start, cur, obstacles, path, k + 1);
            assert(is_path(n, start, v, obstacles, path.subrange(0, k + 2)));
            assert(g[cell_index(n, v)] <= k + 1);
        }
        lemma_popped_optimal(n, start, goal, obstacles, g, closed, open, b, cur, path, k + 1);
    }
}

/// Index of the first entry with the least estimated total cost.
fn min_entry(open: &Vec<(u64, Point)>) -> (r: usize)
    requires
        open@.len() > 0,
    ensures
        r < open@.len(),
        forall|j: int| 0 <= j < open@.len() ==> open@[r as int].0 <= #[trigger] open@[j].0,
{
    let mut best: usize = 0;
    let mut k: usize = 1;
    while k < open.len()
        invariant
            open@.len() > 0,
            best < open@.len(),
            1 <= k <= open@.len(),
            forall|j: int| 0 <= j < k ==> open@[best as int].0 <= #[trigger] open@[j].0,
        decreases open@.len() - k,
    {
        if open[k].0 < open[best].0 {
            best = k;
        }
        k = k + 1;
    }
    best
}

#[verifier::rlimit(50)]
/// Walks the predecessor links back from `goal` to `start` and returns the
/// path in forward order.
fn reconstruct(
    n: i32,
    start: Point,
    goal: Point,
    obstacles: Ghost<Set<Point>>,
    g: &Vec<u64>,
    came: &Vec<Point>,
    bound: Ghost<int>,
) -> (path: Vec<Point>)
    requires
        n >= 1,
        n * n <= usize::MAX,
        g@.len() == n * n,
        came@.len() == n * n,
        spec_in_bounds(n as int, start),
        spec_in_bounds(n as int, goal),
        g@[cell_index(n as int, goal)] != u64::MAX,
        costs_sound(n as int, start, obstacles@, g@, came@, bound@),
    ensures
        is_path(n as int, start, goal, obstacles@, path@),
        path@.len() - 1 <= g@[cell_index(n as int, goal)],
{
    let mut rev: Vec<Point> = Vec::new();
    rev.push(goal);
    let mut cur = goal;
    proof {
        lemma_cell_index(n as int, goal);
    }
    while cur != start
        invariant
            n >= 1,
            n * n <= usize::MAX,
            g@.len() == n * n,
            came@.len() == n * n,
            spec_in_bounds(n as int, start),
            costs_sound(n as int, start, obstacles@, g@, came@, bound@),
            spec_in_bounds(n as int, cur),
            0 <= cell_index(n as int, cur) < n * n,
            g@[cell_index(n as int, cur)] != u64::MAX,
            rev@.len() >= 1,
            rev@[0] == goal,
            rev@[rev@.len() - 1] == cur,
            forall|k: int| 0 <= k < rev@.len() - 1 ==> adjacent(#[trigger] rev@[k + 1], rev@[k]),
            forall|k: int| 0 <= k < rev@.len() ==> spec_in_bounds(n as int, #[trigger] rev@[k]),
            forall|k: int|
                0 <= k < rev@.len() - 1 ==> #[trigger] rev@[k] != start && !obstacles@.contains(rev@[k]),
            cur != start ==> !obstacles@.contains(cur),
            rev@.len() - 1 + g@[cell_index(n as int, cur)] <= g@[cell_index(n as int, goal)],
        decreases g@[cell_index(n as int, cur)],
    {
        let ci = index_of(n, cur);
        let q = came[ci];
        proof {
            lemma_cell_index(n as int, q);
        }
        rev.push(q);
        cur = q;
        proof {
            if cur != start {
                assert(g@[cell_index(n as int, cur)] != u64::MAX);
            }
        }
    }
    let mut path: Vec<Point> = Vec::new();
    let len = rev.len();
    let mut i: usize = len;
    while i > 0
        invariant
            len == rev@.len(),
            i <= len,
            path@.len() == len - i,
            forall|k: int| 0 <= k < path@.len() ==> #[trigger] path@[k] == rev@[len - 1 - k],
        decreases i,
    {
        i = i - 1;
        path.push(rev[i]);
    }
    proof {
        assert forall|k: int| 0 <= k < path@.len() - 1 implies adjacent(
            #[trigger] path@[k],
            path@[k + 1],
        ) by {
            assert(path@[k] == rev@[len - 1 - k]);
            assert(path@[k + 1] == rev@[len - 1 - (k + 1)]);
            assert(adjacent(rev@[(len - 1 - (k + 1)) + 1], rev@[len - 1 - (k + 1)]));
        }
        assert forall|k: int| 0 <= k < path@.len() implies spec_in_bounds(n as int, #[trigger] path@[k]) by {
            assert(path@[k] == rev@[len - 1 - k]);
        }
        assert forall|k: int| 0 < k < path@.len() implies !obstacles@.contains(#[trigger] path@[k]) by {
            assert(path@[k] == rev@[len - 1 - k]);
        }
        assert(path@[0] == rev@[len - 1]);
        assert(path@[path@.len() - 1] == rev@[0]);
        assert(g@[cell_index(n as int, start)] >= 0);
    }
    path
}

/// Like `entries_tracked`, leaving out the cell `c`.
pub open spec fn entries_tracked_except(
    n: int,
    goal: Point,
    g: Seq<u64>,
    closed: Seq<bool>,
    open: Seq<(u64, Point)>,
    c: Point,
) -> bool {
    forall|p: Point|
        #![trigger g[cell_index(n, p)]]
        spec_in_bounds(n, p) && g[cell_index(n, p)] != u64::MAX && !closed[cell_index(n, p)] && p != c ==> exists|j: int|
            0 <= j < open.len() && (#[trigger] open[j]).1 == p && open[j].0 == g[cell_index(n, p)] + spec_manhattan(p, goal)
}

/// Taking entry `b` out of the queue keeps the queue facts, except that the
/// cell of that entry may now lack an entry.
proof fn lemma_after_pop(
    n: int,
    goal: Point,
    g: Seq<u64>,
    closed: Seq<bool>,
    open0: Seq<(u64, Point)>,
    b: int,
    open: Seq<(u64, Point)>,
)
    requires
        0 <= b < open0.len(),
        open == open0.remove(b),
        queue_sound(n, g, open0),
        entries_bounded(n, goal, g, open0),
        entries_tracked(n, goal, g, closed, open0),
    ensures
        queue_sound(n, g, open),
        entries_bounded(n, goal, g, open),
        entries_tracked_except(n, goal, g, closed, open, open0[b].1),
{
    assert forall|j: int| 0 <= j < open.len() implies spec_in_bounds(n, #[trigger] open[j].1) && g[cell_index(
        n,
        open[j].1,
    )] != u64::MAX by {
        if j >= b {
            assert(open[j] == open0[j + 1]);
        }
    }
    assert forall|j: int| 0 <= j < open.len() implies (#[trigger] open[j]).0 >= g[cell_index(n, open[j].1)]
        + spec_manhattan(open[j].1, goal) by {
        if j >= b {
            assert(open[j] == open0[j + 1]);
        } else {
            assert(open[j] == open0[j]);
        }
    }
    assert forall|p: Point|
        #![trigger g[cell_index(n, p)]]
        spec_in_bounds(n, p) && g[cell_index(n, p)] != u64::MAX && !closed[cell_index(n, p)] && p != open0[b].1
            implies exists|j: int|
            0 <= j < open.len() && (#[trigger] open[j]).1 == p && open[j].0 == g[cell_index(n, p)] + spec_manhattan(p, goal) by {
        let j = choose|j: int|
            0 <= j < open0.len() && (#[trigger] open0[j]).1 == p && open0[j].0 == g[cell_index(n, p)] + spec_manhattan(p, goal);
        if j < b {
            assert(open[j] == open0[j]);
        } else {
            assert(open[j - 1] == open0[j]);
        }
    }
}

/// Marking `cur` expanded, once its cost is known to be optimal, keeps the
/// search facts for every other cell.
proof fn lemma_after_close(
    n: int,
    start: Point,
    goal: Point,
    obstacles: Set<Point>,
    g: Seq<u64>,
    closed0: Seq<bool>,
    closed: Seq<bool>,
    open: Seq<(u64, Point)>,
    cur: Point,
)
    requires
        n >= 1,
        g.len() == n * n,
        closed0.len() == n * n,
        spec_in_bounds(n, cur),
        closed == closed0.update(cell_index(n, cur), true),
        g[cell_index(n, cur)] != u64::MAX,
        closed_expanded(n, obstacles, g, closed0),
        closed_optimal(n, start, obstacles, g, closed0),
        forall|other: Seq<Point>| is_path(n, start, cur, obstacles, other) ==> g[cell_index(n, cur)] <= other.len() - 1,
        entries_tracked_except(n, goal, g, closed0, open, cur),
    ensures
        forall|p: Point|
            #![trigger closed[cell_index(n, p)]]
            spec_in_bounds(n, p) && closed[cell_index(n, p)] && p != cur ==> g[cell_index(n, p)] != u64::MAX
                && neighbours_settled(n, obstacles, g, closed, p, 4),
        closed_optimal(n, start, obstacles, g, closed),
        entries_tracked(n, goal, g, closed, open),
        closed[cell_index(n, cur)],
        forall|p: Point| #![trigger closed[cell_index(n, p)]] spec_in_bounds(n, p) && p != cur ==> closed[cell_index(n, p)] == closed0[cell_index(n, p)],
{
    lemma_cell_index(n, cur);
    assert forall|p: Point|
        #![trigger closed[cell_index(n, p)]]
        spec_in_bounds(n, p) && p != cur implies closed[cell_index(n, p)] == closed0[cell_index(n, p)] by {
        lemma_cell_index(n, p);
        if cell_index(n, p) == cell_index(n, cur) {
            lemma_cell_index_injective(n, p, cur);
        }
    }
    assert forall|p: Point|
        #![trigger closed[cell_index(n, p)]]
        spec_in_bounds(n, p) && closed[cell_index(n, p)] && p != cur implies g[cell_index(n, p)] != u64::MAX
            && neighbours_settled(n, obstacles, g, closed, p, 4) by {
        assert(closed0[cell_index(n, p)]);
        assert(neighbours_settled(n, obstacles, g, closed0, p, 4));
        assert forall|e: int|
            0 <= e < 4 && spec_in_bounds(n, #[trigger] spec_step(p, e)) && !obstacles.contains(spec_step(p, e))
                implies closed[cell_index(n, spec_step(p, e))] || (g[cell_index(n, spec_step(p, e))] != u64::MAX
                && g[cell_index(n, spec_step(p, e))] <= g[cell_index(n, p)] + 1) by {
            if spec_step(p, e) != cur {
                assert(closed[cell_index(n, spec_step(p, e))] == closed0[cell_index(n, spec_step(p, e))]);
            }
        }
    }
    assert forall|p: Point, q: Seq<Point>|
        #![trigger closed[cell_index(n, p)], is_path(n, start, p, obstacles, q)]
        spec_in_bounds(n, p) && closed[cell_index(n, p)] && is_path(n, start, p, obstacles, q) implies g[cell_index(
            n,
            p,
        )] <= q.len() - 1 by {
        if p != cur {
            assert(closed0[cell_index(n, p)]);
        }
    }
    assert forall|p: Point|
        #![trigger g[cell_index(n, p)]]
        spec_in_bounds(n, p) && g[cell_index(n, p)] != u64::MAX && !closed[cell_index(n, p)] implies exists|j: int|
            0 <= j < open.len() && (#[trigger] open[j]).1 == p && open[j].0 == g[cell_index(n, p)] + spec_manhattan(p, goal) by {
        if p != cur {
            assert(!closed0[cell_index(n, p)]);
        }
    }
}

/// What one relaxation of `nb` does to the costs and the queue: queued
/// entries stay, costs only fall, a cost changes only for `nb` when it is not
/// expanded, and then with an entry for it at the end; an in-bounds,
/// unblocked, unexpanded `nb` ends with a cost of at most `limit`.
pub open spec fn relaxed(
    n: int,
    goal: Point,
    obstacles: Set<Point>,
    closed: Seq<bool>,
    nb: Point,
    limit: int,
    g0: Seq<u64>,
    g: Seq<u64>,
    open0: Seq<(u64, Point)>,
    open: Seq<(u64, Point)>,
) -> bool {
    &&& open0.len() <= open.len() <= open0.len() + 1
    &&& forall|j: int| 0 <= j < open0.len() ==> #[trigger] open[j] == open0[j]
    &&& open.len() > open0.len() ==> open[open0.len() as int].1 == nb && spec_in_bounds(n, nb)
        && open[open0.len() as int].0 == g[cell_index(n, nb)] + spec_manhattan(nb, goal)
    &&& forall|p: Point|
        #![trigger g[cell_index(n, p)]]
        spec_in_bounds(n, p) ==> g[cell_index(n, p)] <= g0[cell_index(n, p)] && (g[cell_index(n, p)]
            != g0[cell_index(n, p)] ==> p == nb && !closed[cell_index(n, p)] && open.len() == open0.len() + 1)
    &&& spec_in_bounds(n, nb) && !obstacles.contains(nb) && !closed[cell_index(n, nb)] ==> g[cell_index(n, nb)] <= limit
}

/// After relaxing the `d`-th neighbour of the expanded cell `cur`, the
/// search facts extend to that neighbour.
proof fn lemma_relax_step(
    n: int,
    start: Point,
    goal: Point,
    obstacles: Set<Point>,
    cur: Point,
    d: int,
    g0: Seq<u64>,
    g: Seq<u64>,
    closed: Seq<bool>,
    open0: Seq<(u64, Point)>,
    open: Seq<(u64, Point)>,
)
    requires
        0 <= d < 4,
        spec_in_bounds(n, cur),
        closed[cell_index(n, cur)],
        g0[cell_index(n, cur)] != u64::MAX,
        g0[cell_index(n, cur)] + 1 < u64::MAX,
        relaxed(n, goal, obstacles, closed, spec_step(cur, d), g0[cell_index(n, cur)] + 1, g0, g, open0, open),
        forall|p: Point|
            #![trigger closed[cell_index(n, p)]]
            spec_in_bounds(n, p) && closed[cell_index(n, p)] && p != cur ==> g0[cell_index(n, p)] != u64::MAX
                && neighbours_settled(n, obstacles, g0, closed, p, 4),
        neighbours_settled(n, obstacles, g0, closed, cur, d),
        closed_optimal(n, start, obstacles, g0, closed),
        entries_tracked(n, goal, g0, closed, open0),
        entries_bounded(n, goal, g0, open0),
        queue_sound(n, g0, open0),
    ensures
        forall|p: Point|
            #![trigger closed[cell_index(n, p)]]
            spec_in_bounds(n, p) && closed[cell_index(n, p)] && p != cur ==> g[cell_index(n, p)] != u64::MAX
                && neighbours_settled(n, obstacles, g, closed, p, 4),
        neighbours_settled(n, obstacles, g, closed, cur, d + 1),
        closed_optimal(n, start, obstacles, g, closed),
        entries_tracked(n, goal, g, closed, open),
        entries_bounded(n, goal, g, open),
{
    assert forall|p: Point|
        #![trigger closed[cell_index(n, p)]]
        spec_in_bounds(n, p) && closed[cell_index(n, p)] && p != cur implies g[cell_index(n, p)] != u64::MAX
            && neighbours_settled(n, obstacles, g, closed, p, 4) by {
        assert(g[cell_index(n, p)] == g0[cell_index(n, p)]);
        assert(neighbours_settled(n, obstacles, g0, closed, p, 4));
        assert forall|e: int|
            0 <= e < 4 && spec_in_bounds(n, #[trigger] spec_step(p, e)) && !obstacles.contains(spec_step(p, e))
                implies closed[cell_index(n, spec_step(p, e))] || (g[cell_index(n, spec_step(p, e))] != u64::MAX
                && g[cell_index(n, spec_step(p, e))] <= g[cell_index(n, p)] + 1) by {
            assert(g[cell_index(n, spec_step(p, e))] <= g0[cell_index(n, spec_step(p, e))]);
        }
    }
    assert(g[cell_index(n, cur)] == g0[cell_index(n, cur)]);
    assert forall|e: int|
        0 <= e < d + 1 && spec_in_bounds(n, #[trigger] spec_step(cur, e)) && !obstacles.contains(spec_step(cur, e))
            implies closed[cell_index(n, spec_step(cur, e))] || (g[cell_index(n, spec_step(cur, e))] != u64::MAX
            && g[cell_index(n, spec_step(cur, e))] <= g[cell_index(n, cur)] + 1) by {
        assert(g[cell_index(n, spec_step(cur, e))] <= g0[cell_index(n, spec_step(cur, e))]);
    }
    assert forall|p: Point, q: Seq<Point>|
        #![trigger closed[cell_index(n, p)], is_path(n, start, p, obstacles, q)]
        spec_in_bounds(n, p) && closed[cell_index(n, p)] && is_path(n, start, p, obstacles, q) implies g[cell_index(
            n,
            p,
        )] <= q.len() - 1 by {
        assert(g[cell_index(n, p)] == g0[cell_index(n, p)]);
    }
    assert forall|p: Point|
        #![trigger g[cell_index(n, p)]]
        spec_in_bounds(n, p) && g[cell_index(n, p)] != u64::MAX && !closed[cell_index(n, p)] implies exists|j: int|
            0 <= j < open.len() && (#[trigger] open[j]).1 == p && open[j].0 == g[cell_index(n, p)] + spec_manhattan(
                p,
                goal,
            ) by {
        if g[cell_index(n, p)] == g0[cell_index(n, p)] {
            let j = choose|j: int|
                0 <= j < open0.len() && (#[trigger] open0[j]).1 == p && open0[j].0 == g0[cell_index(n, p)]
                    + spec_manhattan(p, goal);
            assert(open[j] == open0[j]);
        } else {
            let k = open0.len() as int;
            assert(open[k].1 == p);
        }
    }
    assert forall|j: int| 0 <= j < open.len() implies (#[trigger] open[j]).0 >= g[cell_index(n, open[j].1)]
        + spec_manhattan(open[j].1, goal) by {
        if j < open0.len() {
            assert(open[j] == open0[j]);
            assert(open0[j].0 >= g0[cell_index(n, open0[j].1)] + spec_manhattan(open0[j].1, goal));
            assert(spec_in_bounds(n, open0[j].1));
            assert(g[cell_index(n, open0[j].1)] <= g0[cell_index(n, open0[j].1)]);
        }
    }
}

/// Offers `nb`, a neighbour of the expanded cell `cur` whose cost is `gc`:
/// when it is in bounds, unblocked, not yet expanded, and reached more cheaply
/// than before, its cost and predecessor are updated and it is queued.
fn relax(
    n: i32,
    start: Point,
    goal: Point,
    obstacles: &ObstacleSet,
    closed: &Vec<bool>,
    cur: Point,
    gc: u64,
    nb: Point,
    g: &mut Vec<u64>,
    came: &mut Vec<Point>,
    open: &mut Vec<(u64, Point)>,
    bound: Ghost<int>,
)
    requires
        n >= 1,
        n * n <= 0x4000_0000_0000_0000,
        n * n <= usize::MAX,
        spec_in_bounds(n as int, start),
        spec_in_bounds(n as int, goal),
        spec_in_bounds(n as int, cur),
        adjacent(cur, nb),
        old(g)@.len() == n * n,
        old(came)@.len() == n * n,
        closed@.len() == n * n,
        old(g)@[cell_index(n as int, start)] == 0,
        gc == old(g)@[cell_index(n as int, cur)],
        gc < bound@ <= n * n,
        costs_sound(n as int, start, obstacles@, old(g)@, old(came)@, bound@),
        queue_sound(n as int, old(g)@, old(open)@),
    ensures
        final(g)@.len() == n * n,
        final(came)@.len() == n * n,
        final(g)@[cell_index(n as int, start)] == 0,
        final(g)@[cell_index(n as int, cur)] == gc,
        costs_sound(n as int, start, obstacles@, final(g)@, final(came)@, bound@),
        queue_sound(n as int, final(g)@, final(open)@),
        final(open)@.len() <= old(open)@.len() + 1,
        relaxed(n as int, goal, obstacles@, closed@, nb, gc + 1, old(g)@, final(g)@, old(open)@, final(open)@),
{
    proof {
        lemma_cell_index(n as int, cur);
        lemma_cell_index(n as int, start);
    }
    if in_bounds(n as i64, nb) && !obstacles.contains(nb) {
        let ni = index_of(n, nb);
        let t = gc + 1;
        if !closed[ni] && t < g[ni] {
            proof {
                lemma_cell_index(n as int, nb);
                lemma_cell_index(n as int, cur);
            }
            let ghost g0 = g@;
            let ghost came0 = came@;
            came.set(ni, cur);
            g.set(ni, t);
            let h = nb.manhattan(&goal);
            open.push((t + h as u64, nb));
            proof {
                let bound = bound@;
                assert forall|p: Point|
                    #![trigger g@[cell_index(n as int, p)]]
                    spec_in_bounds(n as int, p) && g@[cell_index(n as int, p)] != u64::MAX implies {
                    &&& g@[cell_index(n as int, p)] <= bound
                    &&& (p != start ==> {
                        let q = came@[cell_index(n as int, p)];
                        &&& spec_in_bounds(n as int, q)
                        &&& adjacent(q, p)
                        &&& g@[cell_index(n as int, q)] < g@[cell_index(n as int, p)]
                        &&& !obstacles@.contains(p)
                    })
                } by {
                    lemma_cell_index(n as int, p);
                    if p == nb {
                        assert(g@[cell_index(n as int, p)] == t);
                        assert(came@[cell_index(n as int, p)] == cur);
                    } else {
                        if cell_index(n as int, p) == ni {
                            lemma_cell_index_injective(n as int, p, nb);
                        }
                        assert(g@[cell_index(n as int, p)] == g0[cell_index(n as int, p)]);
                        assert(came@[cell_index(n as int, p)] == came0[cell_index(n as int, p)]);
                        if p != start {
                            let q = came0[cell_index(n as int, p)];
                            lemma_cell_index(n as int, q);
                            assert(g0[cell_index(n as int, q)] < g0[cell_index(n as int, p)]);
                        }
                    }
                }
                assert forall|j: int| 0 <= j < open@.len() implies spec_in_bounds(
                    n as int,
                    #[trigger] open@[j].1,
                ) && g@[cell_index(n as int, open@[j].1)] != u64::MAX by {
                    if j < open@.len() - 1 {
                        let q = open@[j].1;
                        lemma_cell_index(n as int, q);
                        assert(g0[cell_index(n as int, q)] != u64::MAX);
                    }
                }
                if ni == cell_index(n as int, cur) {
                    lemma_cell_index_injective(n as int, nb, cur);
                }
            }
        }
    }
    proof {
        if cell_index(n as int, cur) == cell_index(n as int, start) {
            lemma_cell_index_injective(n as int, cur, start);
        }
        assert forall|p: Point|
            #![trigger g@[cell_index(n as int, p)]]
            spec_in_bounds(n as int, p) implies g@[cell_index(n as int, p)] <= old(g)@[cell_index(n as int, p)] && (
            g@[cell_index(n as int, p)] != old(g)@[cell_index(n as int, p)] ==> p == nb && !closed@[cell_index(
                n as int,
                p,
            )] && open@.len() == old(open)@.len() + 1) by {
            lemma_cell_index(n as int, p);
            if spec_in_bounds(n as int, nb) {
                lemma_cell_index(n as int, nb);
                if cell_index(n as int, p) == cell_index(n as int, nb) {
                    lemma_cell_index_injective(n as int, p, nb);
                }
            }
        }
        if spec_in_bounds(n as int, nb) {
            lemma_cell_index(n as int, nb);
        }
    }
}

#[verifier::rlimit(100)]
#[verifier::spinoff_prover]
/// A* search from `start` to `goal` on the `n`×`n` board, avoiding
/// `obstacles`, with unit step costs and the Manhattan distance to `goal` as
/// heuristic. Neighbours are tried up, left, down, right. Returns a shortest
/// path from `start` to `goal` inclusive, or `None` when there is none.
pub fn a_star(n: i32, start: Point, goal: Point, obstacles: &ObstacleSet) -> (r: Option<Vec<Point>>)
    requires
        n >= 1,
        n * n <= usize::MAX,
        spec_in_bounds(n as int, start),
    ensures
        r matches Some(path) ==> is_path(n as int, start, goal, obstacles@, path@),
        r matches Some(path) ==> forall|other: Seq<Point>|
            is_path(n as int, start, goal, obstacles@, other) ==> path@.len() <= other.len(),
        goal == start ==> (r matches Some(path) && path@ == seq![start]),
        goal != start && (!spec_in_bounds(n as int, goal) || obstacles@.contains(goal)) ==> r is None,
        r is Some <==> reachable(n as int, start, goal, obstacles@),
{
    if start == goal {
        let mut path: Vec<Point> = Vec::new();
        path.push(start);
        assert(path@ =~= seq![start]);
        assert(is_path(n as int, start, goal, obstacles@, path@));
        return Some(path);
    }
    if !in_bounds(n as i64, goal) {
        proof {
            if reachable(n as int, start, goal, obstacles@) {
                let path = choose|path: Seq<Point>| is_path(n as int, start, goal, obstacles@, path);
                assert(spec_in_bounds(n as int, path[path.len() - 1]));
            }
        }
        return None;
    }
    let nn: usize = (n as usize) * (n as usize);
    proof {
        lemma_cell_index(n as int, start);
        lemma_cell_index(n as int, goal);
        assert(n * n <= 0x4000_0000_0000_0000) by (nonlinear_arith)
            requires
                1 <= n <= 0x8000_0000,
        ;
    }
    let mut g: Vec<u64> = filled(nn, u64::MAX);
    let mut came: Vec<Point> = filled(nn, start);
    let mut closed: Vec<bool> = filled(nn, false);
    let ghost mut closed_set: Set<int> = Set::empty();
    let mut open: Vec<(u64, Point)> = Vec::new();

    let si = index_of(n, start);
    g.set(si, 0);
    open.push((start.manhattan(&goal) as u64, start));

    proof {
        lemma_int_range(0, nn as int);
        assert forall|p: Point|
            #![trigger g@[cell_index(n as int, p)]]
            spec_in_bounds(n as int, p) && g@[cell_index(n as int, p)] != u64::MAX implies p == start
                && g@[cell_index(n as int, p)] == 0 by {
            lemma_cell_index(n as int, p);
            if p != start {
                lemma_cell_index_injective(n as int, p, start);
            }
        }
        assert(open@[0].1 == start);
        assert forall|p: Point|
            #![trigger closed@[cell_index(n as int, p)]]
            spec_in_bounds(n as int, p) implies !closed@[cell_index(n as int, p)] by {
            lemma_cell_index(n as int, p);
        }
        assert(entries_tracked(n as int, goal, g@, closed@, open@));
        assert(entries_bounded(n as int, goal, g@, open@));
    }

    while open.len() > 0
        invariant
            n >= 1,
            n * n <= 0x4000_0000_0000_0000,
            n * n <= usize::MAX,
            nn == n * n,
            spec_in_bounds(n as int, start),
            spec_in_bounds(n as int, goal),
            start != goal,
            g@.len() == nn,
            came@.len() == nn,
            g@[cell_index(n as int, start)] == 0,
            costs_sound(n as int, start, obstacles@, g@, came@, closed_set.len() as int),
            queue_sound(n as int, g@, open@),
            closed_sound(nn as int, closed@, closed_set),
            !closed@[cell_index(n as int, goal)],
            closed_expanded(n as int, obstacles@, g@, closed@),
            closed_optimal(n as int, start, obstacles@, g@, closed@),
            entries_tracked(n as int, goal, g@, closed@, open@),
            entries_bounded(n as int, goal, g@, open@),
        decreases 5 * (nn - closed_set.len()) + open@.len(),
    {
        let b = min_entry(&open);
        let ghost open0 = open@;
        let entry = open.remove(b);
        let cur = entry.1;
        proof {
            lemma_after_pop(n as int, goal, g@, closed@, open0, b as int, open@);
        }
        let ci = index_of(n, cur);
        if cur == goal {
            proof {
                assert forall|other: Seq<Point>| is_path(n as int, start, goal, obstacles@, other) implies g@[cell_index(
                    n as int,
                    goal,
                )] <= other.len() - 1 by {
                    lemma_popped_optimal(n as int, start, goal, obstacles@, g@, closed@, open0, b as int, cur, other, 0);
                }
            }
            let path = reconstruct(n, start, goal, Ghost(obstacles@), &g, &came, Ghost(closed_set.len() as int));
            return Some(path);
        }
        if closed[ci] {
            continue;
        }
        proof {
            assert forall|other: Seq<Point>| is_path(n as int, start, cur, obstacles@, other) implies g@[cell_index(
                n as int,
                cur,
            )] <= other.len() - 1 by {
                lemma_popped_optimal(n as int, start, goal, obstacles@, g@, closed@, open0, b as int, cur, other, 0);
            }
        }
        let ghost closed0 = closed@;
        closed.set(ci, true);
        proof {
            lemma_after_close(n as int, start, goal, obstacles@, g@, closed0, closed@, open@, cur);
            lemma_cell_index(n as int, goal);
            assert(!closed_set.contains(ci as int));
            closed_set = closed_set.insert(ci as int);
            lemma_int_range(0, nn as int);
            lemma_len_subset(closed_set, set_int_range(0, nn as int));
            assert forall|i: int| 0 <= i < nn implies (#[trigger] closed@[i] == closed_set.contains(i)) by {}
        }
        let gc = g[ci];
        let open_len0: usize = open.len();
        let mut d: usize = 0;
        while d < 4
            invariant
                n >= 1,
                n * n <= 0x4000_0000_0000_0000,
                n * n <= usize::MAX,
                nn == n * n,
                spec_in_bounds(n as int, start),
                spec_in_bounds(n as int, goal),
                spec_in_bounds(n as int, cur),
                ci == cell_index(n as int, cur),
                start != goal,
                g@.len() == nn,
                came@.len() == nn,
                g@[cell_index(n as int, start)] == 0,
                gc == g@[ci as int],
                gc != u64::MAX,
                gc < closed_set.len(),
                costs_sound(n as int, start, obstacles@, g@, came@, closed_set.len() as int),
                queue_sound(n as int, g@, open@),
                closed_sound(nn as int, closed@, closed_set),
                d <= 4,
                open@.len() <= open_len0 + d,
                closed@[ci as int],
                !closed@[cell_index(n as int, goal)],
                forall|p: Point|
                    #![trigger closed@[cell_index(n as int, p)]]
                    spec_in_bounds(n as int, p) && closed@[cell_index(n as int, p)] && p != cur ==> g@[cell_index(
                        n as int,
                        p,
                    )] != u64::MAX && neighbours_settled(n as int, obstacles@, g@, closed@, p, 4),
                neighbours_settled(n as int, obstacles@, g@, closed@, cur, d as int),
                closed_optimal(n as int, start, obstacles@, g@, closed@),
                entries_tracked(n as int, goal, g@, closed@, open@),
                entries_bounded(n as int, goal, g@, open@),
            decreases 4 - d,
        {
            let nb = cur.step(d);
            let ghost g1 = g@;
            let ghost open1 = open@;
            relax(n, start, goal, obstacles, &closed, cur, gc, nb, &mut g, &mut came, &mut open, Ghost(closed_set.len() as int));
            proof {
                lemma_relax_step(n as int, start, goal, obstacles@, cur, d as int, g1, g@, closed@, open1, open@);
                assert(gc == g@[ci as int]);
            }
            d = d + 1;
        }
    }
    proof {
        if reachable(n as int, start, goal, obstacles@) {
            let path = choose|path: Seq<Point>| is_path(n as int, start, goal, obstacles@, path);
            lemma_path_known(n as int, start, goal, obstacles@, g@, closed@, open@, path, path.len() - 1);
        }
    }
    None
}

} // verus!
