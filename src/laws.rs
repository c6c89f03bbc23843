//! Properties of the search results and the obstacle model, proved from the
//! contracts of `a_star` and `build_obstacles`.

use vstd::prelude::*;
use crate::grid::{Point, spec_in_bounds, spec_manhattan, adjacent, direction_code};
use crate::obstacles::{blocked, agent_total, pair_point, wall, other_segment, near_other_head};
use crate::search::{is_path, reachable};
use crate::decision::{nearest, safe_move, snapshot_obstacles};

verus! {

/// Every step of a returned path moves exactly one unit along exactly one axis.
pub proof fn lemma_path_unit_steps(n: int, start: Point, goal: Point, obstacles: Set<Point>, path: Seq<Point>)
    requires
        is_path(n, start, goal, obstacles, path),
    ensures
        forall|i: int|
            0 <= i < path.len() - 1 ==> {
                let dx = path[i + 1].x - #[trigger] path[i].x;
                let dy = path[i + 1].y - path[i].y;
                ((dx == 1 || dx == -1) && dy == 0) || (dx == 0 && (dy == 1 || dy == -1))
            },
{
    assert forall|i: int| 0 <= i < path.len() - 1 implies {
        let dx = path[i + 1].x - #[trigger] path[i].x;
        let dy = path[i + 1].y - path[i].y;
        ((dx == 1 || dx == -1) && dy == 0) || (dx == 0 && (dy == 1 || dy == -1))
    } by {
        assert(adjacent(path[i], path[i + 1]));
    }
}

/// A returned path from an unblocked start stays in `[1, n]` on both axes and
/// never enters a cell of the obstacle set it was searched with.
pub proof fn lemma_path_avoids_obstacles(n: int, start: Point, goal: Point, obstacles: Set<Point>, path: Seq<Point>)
    requires
        is_path(n, start, goal, obstacles, path),
        !obstacles.contains(start),
    ensures
        forall|i: int|
            0 <= i < path.len() ==> !obstacles.contains(#[trigger] path[i]) && 1 <= path[i].x <= n && 1
                <= path[i].y <= n,
{
    assert forall|i: int| 0 <= i < path.len() implies !obstacles.contains(#[trigger] path[i]) && 1
        <= path[i].x <= n && 1 <= path[i].y <= n by {
        assert(spec_in_bounds(n, path[i]));
    }
}

proof fn lemma_prefix_distance(n: int, start: Point, goal: Point, obstacles: Set<Point>, path: Seq<Point>, k: int)
    requires
        is_path(n, start, goal, obstacles, path),
        0 <= k < path.len(),
    ensures
        spec_manhattan(start, path[k]) <= k,
    decreases k,
{
    if k > 0 {
        lemma_prefix_distance(n, start, goal, obstacles, path, k - 1);
        assert(adjacent(path[k - 1], path[k]));
    }
}

/// A returned path takes at least as many steps as the Manhattan distance
/// between its ends: on a board without obstacles no path is shorter than
/// that distance.
pub proof fn lemma_path_at_least_manhattan(n: int, start: Point, goal: Point, obstacles: Set<Point>, path: Seq<Point>)
    requires
        is_path(n, start, goal, obstacles, path),
    ensures
        path.len() - 1 >= spec_manhattan(start, goal),
{
    lemma_prefix_distance(n, start, goal, obstacles, path, path.len() - 1);
}

/// With more than two agents, every orthogonal neighbour of another agent's
/// head is blocked, whether or not anything occupies it now.
pub proof fn lemma_head_neighbours_blocked(n: int, agent_count: int, second: Point, others: Seq<i32>, a: int, p: Point)
    requires
        agent_count > 2,
        0 <= a < agent_total(others),
        adjacent(p, pair_point(others, 4 * a)),
    ensures
        blocked(n, agent_count, second, others, p),
{
}

/// Every cell of the ring just outside `[1, n]` is blocked.
pub proof fn lemma_border_blocked(n: int, agent_count: int, second: Point, others: Seq<i32>, p: Point)
    requires
        n >= 1,
        (0 <= p.x <= n + 1 && (p.y == 0 || p.y == n + 1)) || (0 <= p.y <= n + 1 && (p.x == 0 || p.x == n + 1)),
    ensures
        blocked(n, agent_count, second, others, p),
        !spec_in_bounds(n, p),
{
    assert(wall(n, p));
}

/// A goal other than the start that lies off the board (a wall cell, for
/// instance) or in the obstacle set is never reachable.
pub proof fn lemma_blocked_goal_unreachable(n: int, start: Point, goal: Point, obstacles: Set<Point>)
    requires
        goal != start,
        !spec_in_bounds(n, goal) || obstacles.contains(goal),
    ensures
        !reachable(n, start, goal, obstacles),
{
    if reachable(n, start, goal, obstacles) {
        let path = choose|path: Seq<Point>| is_path(n, start, goal, obstacles, path);
        assert(path.len() > 1);
        assert(spec_in_bounds(n, path[path.len() - 1]));
        assert(!obstacles.contains(path[path.len() - 1]));
    }
}

/// When some path to food `a` is strictly shorter than every path to food
/// `b`, a nearest-food path never ends at `b`: the selector heads for the
/// closer food.
pub proof fn lemma_nearest_prefers_closer_food(
    n: int,
    head: Point,
    foods: Seq<Point>,
    obstacles: Set<Point>,
    path: Seq<Point>,
    j: int,
    a: int,
    b: int,
    to_a: Seq<Point>,
)
    requires
        0 <= j < foods.len(),
        0 <= a < foods.len(),
        0 <= b < foods.len(),
        is_path(n, head, foods[j], obstacles, path),
        nearest(n, head, foods, obstacles, path),
        is_path(n, head, foods[a], obstacles, to_a),
        forall|other: Seq<Point>| is_path(n, head, foods[b], obstacles, other) ==> to_a.len() < other.len(),
    ensures
        foods[j] != foods[b],
{
    assert(path.len() <= to_a.len());
}

/// A staircase path on a board with no obstacle inside `[1, n]`: it takes
/// exactly the Manhattan distance in steps.
proof fn staircase(n: int, start: Point, goal: Point, obstacles: Set<Point>) -> (path: Seq<Point>)
    requires
        spec_in_bounds(n, start),
        spec_in_bounds(n, goal),
        forall|p: Point| spec_in_bounds(n, p) ==> !#[trigger] obstacles.contains(p),
    ensures
        is_path(n, start, goal, obstacles, path),
        path.len() == spec_manhattan(start, goal) + 1,
    decreases spec_manhattan(start, goal),
{
    if start == goal {
        seq![start]
    } else {
        let prev = if goal.x < start.x {
            Point { x: (goal.x + 1) as i64, y: goal.y }
        } else if goal.x > start.x {
            Point { x: (goal.x - 1) as i64, y: goal.y }
        } else if goal.y < start.y {
            Point { x: goal.x, y: (goal.y + 1) as i64 }
        } else {
            Point { x: goal.x, y: (goal.y - 1) as i64 }
        };
        let p = staircase(n, start, prev, obstacles);
        let r = p.push(goal);
        assert forall|i: int| 0 <= i < r.len() - 1 implies adjacent(#[trigger] r[i], r[i + 1]) by {
            if i < r.len() - 2 {
                assert(r[i] == p[i] && r[i + 1] == p[i + 1]);
            } else {
                assert(r[i] == p[p.len() - 1]);
            }
        }
        assert forall|i: int| 0 <= i < r.len() implies spec_in_bounds(n, #[trigger] r[i]) by {
            if i < p.len() {
                assert(r[i] == p[i]);
            }
        }
        assert forall|i: int| 0 < i < r.len() implies !obstacles.contains(#[trigger] r[i]) by {
            if i < p.len() {
                assert(r[i] == p[i]);
            }
        }
        r
    }
}

/// On a board with no obstacle inside `[1, n]` every goal on the board is
/// reachable, and a shortest path (such as `a_star` returns) takes exactly the
/// Manhattan distance in steps.
pub proof fn lemma_open_board_shortest(n: int, start: Point, goal: Point, obstacles: Set<Point>, path: Seq<Point>)
    requires
        spec_in_bounds(n, start),
        spec_in_bounds(n, goal),
        forall|p: Point| spec_in_bounds(n, p) ==> !#[trigger] obstacles.contains(p),
        is_path(n, start, goal, obstacles, path),
        forall|other: Seq<Point>| is_path(n, start, goal, obstacles, other) ==> path.len() <= other.len(),
    ensures
        reachable(n, start, goal, obstacles),
        path.len() == spec_manhattan(start, goal) + 1,
{
    let s = staircase(n, start, goal, obstacles);
    assert(path.len() <= s.len());
    lemma_path_at_least_manhattan(n, start, goal, obstacles, path);
}

/// On a board with no obstacle inside `[1, n]` every goal on the board is
/// reachable from every start on it.
pub proof fn lemma_open_board_reachable(n: int, start: Point, goal: Point, obstacles: Set<Point>)
    requires
        spec_in_bounds(n, start),
        spec_in_bounds(n, goal),
        forall|p: Point| spec_in_bounds(n, p) ==> !#[trigger] obstacles.contains(p),
    ensures
        reachable(n, start, goal, obstacles),
{
    let s = staircase(n, start, goal, obstacles);
    assert(is_path(n, start, goal, obstacles, s));
}

/// A safe move of the per-tick decision with more than two agents never
/// enters a non-tail segment of another agent nor a cell next to another
/// agent's head.
pub proof fn lemma_step_avoids_other_agents(
    n: int,
    agent_count: int,
    snake: Seq<i32>,
    others: Seq<i32>,
    r: int,
    p: Point,
)
    requires
        agent_count > 2,
        safe_move(n, pair_point(snake, 0), snapshot_obstacles(n, agent_count, snake, others), r),
        adjacent(pair_point(snake, 0), p),
        direction_code(pair_point(snake, 0), p) == r,
    ensures
        !other_segment(others, p),
        !near_other_head(others, p),
{
    let head = pair_point(snake, 0);
    let obstacles = snapshot_obstacles(n, agent_count, snake, others);
    let q = choose|q: Point|
        adjacent(head, q) && spec_in_bounds(n, q) && !obstacles.contains(q) && direction_code(head, q) == r;
    assert(p == q);
    assert(!blocked(n, agent_count, pair_point(snake, 1), others, q));
}

} // verus!
