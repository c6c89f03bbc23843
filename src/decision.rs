//! Choosing the target among the food candidates and turning its path into a
//! direction code, and the per-tick entry points.

use vstd::prelude::*;
use crate::grid::{Point, spec_in_bounds, spec_manhattan, adjacent, direction_code, in_bounds, decide_direction};
use crate::obstacles::{ObstacleSet, pair_point, points_in, insert_points, blocked, build_obstacles, parse_points, parse_snake};
use crate::search::{is_path, a_star, reachable};
use crate::laws::lemma_blocked_goal_unreachable;

verus! {

/// The code returned when no move toward food was found.
pub const FALLBACK: i32 = 0;

/// The code returned when no legal target or move can be determined.
pub const NO_TARGET: i32 = -1;

/// The selector's rule: a candidate path replaces the best one so far only
/// when there was none or it is strictly shorter.
pub open spec fn prefer(best: Option<Vec<Point>>, candidate: Option<Vec<Point>>) -> Option<Vec<Point>> {
    match candidate {
        Some(c) => match best {
            Some(b) => if c@.len() < b@.len() { candidate } else { best },
            None => candidate,
        },
        None => best,
    }
}

/// The direction of the first step of `best`, or the fallback code when there
/// is no path or it does not leave `head`.
pub open spec fn first_step_code(head: Point, best: Option<Vec<Point>>) -> int {
    match best {
        Some(p) => if p@.len() > 1 { direction_code(head, p@[1]) } else { FALLBACK as int },
        None => FALLBACK as int,
    }
}

/// `code` moves from `head` onto an in-bounds neighbour that is not blocked.
pub open spec fn safe_move(n: int, head: Point, obstacles: Set<Point>, code: int) -> bool {
    exists|p: Point|
        adjacent(head, p) && spec_in_bounds(n, p) && !obstacles.contains(p) && direction_code(head, p)
            == code
}

/// `path` is no longer than any path from `head` to any of `foods`.
pub open spec fn nearest(n: int, head: Point, foods: Seq<Point>, obstacles: Set<Point>, path: Seq<Point>) -> bool {
    forall|j: int, other: Seq<Point>|
        0 <= j < foods.len() && #[trigger] is_path(n, head, foods[j], obstacles, other) ==> path.len() <= other.len()
}

/// `path` leads to one of the first `bound` foods, and every path to a food
/// listed before that one is strictly longer.
pub open spec fn ends_at_first_nearest(
    n: int,
    head: Point,
    foods: Seq<Point>,
    obstacles: Set<Point>,
    path: Seq<Point>,
    bound: int,
) -> bool {
    exists|j: int|
        0 <= j < bound && #[trigger] is_path(n, head, foods[j], obstacles, path) && forall|k: int, other: Seq<Point>|
            0 <= k < j && #[trigger] is_path(n, head, foods[k], obstacles, other) ==> path.len() < other.len()
}

/// Keeps the shorter of the best path so far and a new candidate; on equal
/// lengths the earlier one stays.
pub fn choose_shorter(best: Option<Vec<Point>>, candidate: Option<Vec<Point>>) -> (r: Option<Vec<Point>>)
    ensures
        r == prefer(best, candidate),
{
    match candidate {
        Some(c) => match best {
            Some(b) => if c.len() < b.len() { Some(c) } else { Some(b) },
            None => Some(c),
        },
        None => best,
    }
}

/// Direction code of the first step of `best`, or [`FALLBACK`].
pub fn pick_direction(head: Point, best: &Option<Vec<Point>>) -> (r: i32)
    requires
        i64::MIN < head.x < i64::MAX,
        i64::MIN < head.y < i64::MAX,
    ensures
        r == first_step_code(head, *best),
{
    match best {
        Some(p) => if p.len() > 1 { decide_direction(head, p[1]) } else { FALLBACK },
        None => FALLBACK,
    }
}

/// Searches a path to each food in turn and keeps the shortest; the first of
/// several equally short ones wins, unreachable foods are skipped.
pub fn select_path(n: i32, head: Point, foods: &Vec<Point>, obstacles: &ObstacleSet) -> (r: Option<Vec<Point>>)
    requires
        n >= 1,
        n * n <= usize::MAX,
        spec_in_bounds(n as int, head),
    ensures
        r matches Some(path) ==> ends_at_first_nearest(n as int, head, foods@, obstacles@, path@, foods@.len() as int),
        r is Some <==> exists|j: int| 0 <= j < foods@.len() && reachable(n as int, head, #[trigger] foods@[j], obstacles@),
        r matches Some(path) ==> forall|j: int, other: Seq<Point>|
            0 <= j < foods@.len() && #[trigger] is_path(n as int, head, foods@[j], obstacles@, other) ==> path@.len()
                <= other.len(),
{
    let mut best: Option<Vec<Point>> = None;
    let mut j: usize = 0;
    while j < foods.len()
        invariant
            n >= 1,
            n * n <= usize::MAX,
            spec_in_bounds(n as int, head),
            j <= foods@.len(),
            best matches Some(path) ==> ends_at_first_nearest(n as int, head, foods@, obstacles@, path@, j as int),
            best is Some <==> exists|k: int| 0 <= k < j && reachable(n as int, head, #[trigger] foods@[k], obstacles@),
            best matches Some(bp) ==> forall|k: int, other: Seq<Point>|
                0 <= k < j && #[trigger] is_path(n as int, head, foods@[k], obstacles@, other) ==> bp@.len()
                    <= other.len(),
        decreases foods@.len() - j,
    {
        let found = a_star(n, head, foods[j], obstacles);
        proof {
            if let Some(path) = &found {
                assert(is_path(n as int, head, foods@[j as int], obstacles@, path@));
            }
            if reachable(n as int, head, foods@[j as int], obstacles@) {
                assert(found is Some);
            }
            if exists|k: int| 0 <= k < j + 1 && reachable(n as int, head, #[trigger] foods@[k], obstacles@) {
                let k = choose|k: int| 0 <= k < j + 1 && reachable(n as int, head, #[trigger] foods@[k], obstacles@);
                if k < j {
                    assert(best is Some);
                }
            }
        }
        let ghost best0 = best;
        let ghost found0 = found;
        best = choose_shorter(best, found);
        proof {
            if let Some(bp) = &best {
                match found0 {
                    Some(fp) => {
                        match best0 {
                            Some(b0) => {
                                if fp@.len() < b0@.len() {
                                    assert forall|k: int, other: Seq<Point>|
                                        0 <= k < j && #[trigger] is_path(n as int, head, foods@[k], obstacles@, other)
                                            implies fp@.len() < other.len() by {
                                        assert(b0@.len() <= other.len());
                                    }
                                    assert(is_path(n as int, head, foods@[j as int], obstacles@, fp@));
                                } else {
                                    let jb = choose|jb: int|
                                        0 <= jb < j && #[trigger] is_path(n as int, head, foods@[jb], obstacles@, b0@)
                                            && forall|k: int, other: Seq<Point>|
                                            0 <= k < jb && #[trigger] is_path(n as int, head, foods@[k], obstacles@, other)
                                                ==> b0@.len() < other.len();
                                    assert(is_path(n as int, head, foods@[jb], obstacles@, b0@));
                                }
                            },
                            None => {
                                assert forall|k: int, other: Seq<Point>|
                                    0 <= k < j && #[trigger] is_path(n as int, head, foods@[k], obstacles@, other)
                                        implies fp@.len() < other.len() by {
                                    assert(reachable(n as int, head, foods@[k], obstacles@));
                                }
                                assert(is_path(n as int, head, foods@[j as int], obstacles@, fp@));
                            },
                        }
                    },
                    None => {
                        if let Some(b0) = best0 {
                            let jb = choose|jb: int|
                                0 <= jb < j && #[trigger] is_path(n as int, head, foods@[jb], obstacles@, b0@)
                                    && forall|k: int, other: Seq<Point>|
                                    0 <= k < jb && #[trigger] is_path(n as int, head, foods@[k], obstacles@, other)
                                        ==> b0@.len() < other.len();
                            assert(is_path(n as int, head, foods@[jb], obstacles@, b0@));
                        }
                    },
                }
                assert forall|k: int, other: Seq<Point>|
                    0 <= k < j + 1 && #[trigger] is_path(n as int, head, foods@[k], obstacles@, other) implies bp@.len()
                        <= other.len() by {
                    if k == j {
                        assert(reachable(n as int, head, foods@[k], obstacles@));
                        if let Some(fp) = found0 {
                            assert(fp@.len() <= other.len());
                        }
                    } else {
                        if let Some(fp) = found0 {
                            if let Some(b0) = best0 {
                                assert(b0@.len() <= other.len());
                            }
                        }
                    }
                }
            }
        }
        j = j + 1;
    }
    best
}

/// The move toward the nearest reachable food (the first listed among
/// equally near ones): the first step of the shortest path found, or
/// [`FALLBACK`] when no food is reachable or one lies on the head.
pub fn decide(n: i32, head: Point, foods: &Vec<Point>, obstacles: &ObstacleSet) -> (r: i32)
    requires
        n >= 1,
        n * n <= usize::MAX,
        spec_in_bounds(n as int, head),
    ensures
        r == FALLBACK || safe_move(n as int, head, obstacles@, r as int),
        0 <= r < 4,
        decision_of(n as int, head, foods@, obstacles@, r),
{
    let best = select_path(n, head, foods, obstacles);
    let r = pick_direction(head, &best);
    proof {
        if exists|j: int| 0 <= j < foods@.len() && #[trigger] foods@[j] == head {
            let j = choose|j: int| 0 <= j < foods@.len() && #[trigger] foods@[j] == head;
            let single = seq![head];
            assert(is_path(n as int, head, foods@[j], obstacles@, single));
            assert(reachable(n as int, head, foods@[j], obstacles@));
        }
        if let Some(path) = &best {
            let j = choose|j: int|
                0 <= j < foods@.len() && #[trigger] is_path(n as int, head, foods@[j], obstacles@, path@)
                    && forall|k: int, other: Seq<Point>|
                    0 <= k < j && #[trigger] is_path(n as int, head, foods@[k], obstacles@, other) ==> path@.len()
                        < other.len();
            if foods@[j] != head {
                assert(path@.len() > 1);
            }
            if path@.len() > 1 {
                assert(adjacent(path@[0], path@[1]));
                assert(spec_in_bounds(n as int, path@[1]));
                assert(!obstacles@.contains(path@[1]));
                let p = path@[1];
                assert(adjacent(head, p) && spec_in_bounds(n as int, p) && !obstacles@.contains(p)
                    && direction_code(head, p) == r);
                assert(is_path(n as int, head, foods@[j], obstacles@, path@) && path@.len() > 1 && r == direction_code(
                    head,
                    path@[1],
                ) && nearest(n as int, head, foods@, obstacles@, path@));
            }
        }
    }
    r
}

/// `n * n` cells can be indexed on this machine.
pub open spec fn board_fits(n: int) -> bool {
    1 <= n && n * n <= usize::MAX
}

fn board_fits_exec(n: i32) -> (r: bool)
    ensures
        r == board_fits(n as int),
{
    if n < 1 {
        return false;
    }
    proof {
        assert((n as int) * (n as int) <= 0x4000_0000_0000_0000) by (nonlinear_arith)
            requires
                1 <= n <= 0x8000_0000,
        ;
    }
    let sq: u128 = (n as u128) * (n as u128);
    sq <= usize::MAX as u128
}

/// This tick's obstacle set, as `build_obstacles` gives it for the snapshot.
pub open spec fn snapshot_obstacles(n: int, agent_count: int, snake: Seq<i32>, others: Seq<i32>) -> Set<Point> {
    Set::new(|p: Point| blocked(n, agent_count, pair_point(snake, 1), others, p))
}

/// The food cells of a flat list of coordinate pairs.
pub open spec fn food_cells(foods: Seq<i32>) -> Seq<Point> {
    Seq::new((foods.len() / 2) as nat, |j: int| pair_point(foods, j))
}

/// What the decision owes for the head `head`: the fallback code when no food
/// is reachable or a food lies on the head, and otherwise the direction of the
/// first step of a path to a nearest food, the first listed among equally
/// near ones.
pub open spec fn decision_of(n: int, head: Point, foods: Seq<Point>, obstacles: Set<Point>, r: i32) -> bool {
    &&& (forall|j: int| 0 <= j < foods.len() ==> !reachable(n, head, #[trigger] foods[j], obstacles)) ==> r
        == FALLBACK
    &&& (exists|j: int| 0 <= j < foods.len() && #[trigger] foods[j] == head) ==> r == FALLBACK
    &&& (exists|j: int| 0 <= j < foods.len() && reachable(n, head, #[trigger] foods[j], obstacles)) && (forall|j: int|
        0 <= j < foods.len() ==> #[trigger] foods[j] != head) ==> exists|j: int, path: Seq<Point>|
        0 <= j < foods.len() && #[trigger] is_path(n, head, foods[j], obstacles, path) && path.len() > 1 && r
            == direction_code(head, path[1]) && nearest(n, head, foods, obstacles, path) && forall|
            k: int,
            other: Seq<Point>,
        | 0 <= k < j && #[trigger] is_path(n, head, foods[k], obstacles, other) ==> path.len() < other.len()
}

/// Index of the food nearest to `head` by Manhattan distance among the first
/// `k` foods, the first listed among equally near ones.
pub open spec fn nearest_food_index(head: Point, foods: Seq<Point>, k: int) -> int
    decreases k,
{
    if k <= 1 {
        0
    } else {
        let i = nearest_food_index(head, foods, k - 1);
        if spec_manhattan(foods[k - 1], head) < spec_manhattan(foods[i], head) {
            k - 1
        } else {
            i
        }
    }
}

/// The nearest food cell (see [`nearest_food_index`]) is off the board or
/// blocked, so there is no legal target.
pub open spec fn target_illegal(n: int, head: Point, foods: Seq<Point>, obstacles: Set<Point>) -> bool {
    foods.len() > 0 && {
        let f = foods[nearest_food_index(head, foods, foods.len() as int)];
        !spec_in_bounds(n, f) || obstacles.contains(f)
    }
}

/// Index of the food nearest to `head`, the first listed on ties.
fn nearest_food(head: Point, foods: &Vec<Point>) -> (r: usize)
    requires
        foods@.len() > 0,
        -0x8000_0000 <= head.x < 0x8000_0000,
        -0x8000_0000 <= head.y < 0x8000_0000,
        forall|j: int|
            0 <= j < foods@.len() ==> -0x8000_0000 <= (#[trigger] foods@[j]).x < 0x8000_0000 && -0x8000_0000
                <= foods@[j].y < 0x8000_0000,
    ensures
        r == nearest_food_index(head, foods@, foods@.len() as int),
        r < foods@.len(),
{
    let mut best: usize = 0;
    let mut k: usize = 1;
    while k < foods.len()
        invariant
            1 <= k <= foods@.len(),
            best < k,
            best == nearest_food_index(head, foods@, k as int),
            -0x8000_0000 <= head.x < 0x8000_0000,
            -0x8000_0000 <= head.y < 0x8000_0000,
            forall|j: int|
                0 <= j < foods@.len() ==> -0x8000_0000 <= (#[trigger] foods@[j]).x < 0x8000_0000 && -0x8000_0000
                    <= foods@[j].y < 0x8000_0000,
        decreases foods@.len() - k,
    {
        let dk = foods[k].manhattan(&head);
        let db = foods[best].manhattan(&head);
        if dk < db {
            best = k;
        }
        k = k + 1;
    }
    best
}

/// One decision for the agent whose body is `snake` (head first, as
/// `x, y` pairs) on an `n`×`n` board, with `snake_num` live agents, the other
/// agents' bodies in `other_snakes` (eight numbers each) and the food cells in
/// `foods`. Returns [`NO_TARGET`] when the head is off the board, or when the
/// food nearest to the head by Manhattan distance (the first listed among
/// equally near ones) is off the board or blocked; no search is made then.
/// Otherwise returns the direction code toward the nearest reachable food, or
/// [`FALLBACK`] when none is reachable or a food lies on the head. `food_num`
/// and `round` do not affect the decision.
pub fn greedy_snake_step(
    n: i32,
    snake: &[i32],
    snake_num: i32,
    other_snakes: &[i32],
    food_num: i32,
    foods: &[i32],
    round: i32,
) -> (r: i32)
    requires
        snake@.len() >= 4,
    ensures
        r == NO_TARGET <==> !board_fits(n as int) || !spec_in_bounds(n as int, pair_point(snake@, 0))
            || target_illegal(
            n as int,
            pair_point(snake@, 0),
            food_cells(foods@),
            snapshot_obstacles(n as int, snake_num as int, snake@, other_snakes@),
        ),
        -1 <= r < 4,
        r == NO_TARGET || r == FALLBACK || safe_move(
            n as int,
            pair_point(snake@, 0),
            snapshot_obstacles(n as int, snake_num as int, snake@, other_snakes@),
            r as int,
        ),
        board_fits(n as int) && spec_in_bounds(n as int, pair_point(snake@, 0)) && !target_illegal(
            n as int,
            pair_point(snake@, 0),
            food_cells(foods@),
            snapshot_obstacles(n as int, snake_num as int, snake@, other_snakes@),
        ) ==> decision_of(
            n as int,
            pair_point(snake@, 0),
            food_cells(foods@),
            snapshot_obstacles(n as int, snake_num as int, snake@, other_snakes@),
            r,
        ),
{
    let me = parse_snake(snake);
    let obstacles = build_obstacles(n, snake_num, &me, other_snakes);
    let head = me.head();
    proof {
        assert(obstacles@ =~= snapshot_obstacles(n as int, snake_num as int, snake@, other_snakes@));
    }
    if !board_fits_exec(n) || !in_bounds(n as i64, head) {
        return NO_TARGET;
    }
    let food_points = parse_points(foods);
    assert(food_points@ =~= food_cells(foods@));
    if food_points.len() > 0 {
        let target = food_points[nearest_food(head, &food_points)];
        if !in_bounds(n as i64, target) || obstacles.contains(target) {
            return NO_TARGET;
        }
    }
    decide(n, head, &food_points, &obstacles)
}

/// Side of the fixed board of the single-target decision.
pub const BOARD_SIDE: i32 = 8;

/// The cells blocked in the single-target decision: the body behind the head
/// (three points, tail included) and the twelve barrier cells.
pub open spec fn barrier_obstacles(snake: Seq<i32>, barriers: Seq<i32>) -> Set<Point> {
    points_in(snake, 1, 4).union(points_in(barriers, 0, 12))
}

/// One decision toward the single food cell `fruit` on the fixed 8×8 board,
/// with the agent's body `snake` (four `x, y` pairs, head first) and twelve
/// barrier cells. Returns [`NO_TARGET`] when the fruit is off the board or
/// blocked, when the head is off the board, or when no path leaves the head;
/// otherwise the direction code of the first step of a shortest path.
pub fn greedy_snake_move_barriers(snake: &[i32], fruit: &[i32], barriers: &[i32]) -> (r: i32)
    requires
        snake@.len() >= 8,
        fruit@.len() >= 2,
        barriers@.len() >= 24,
    ensures
        !spec_in_bounds(BOARD_SIDE as int, pair_point(fruit@, 0)) || barrier_obstacles(snake@, barriers@).contains(
            pair_point(fruit@, 0),
        ) ==> r == NO_TARGET,
        !spec_in_bounds(BOARD_SIDE as int, pair_point(snake@, 0)) ==> r == NO_TARGET,
        pair_point(fruit@, 0) == pair_point(snake@, 0) ==> r == NO_TARGET,
        r != NO_TARGET <==> spec_in_bounds(BOARD_SIDE as int, pair_point(snake@, 0)) && pair_point(fruit@, 0)
            != pair_point(snake@, 0) && reachable(
            BOARD_SIDE as int,
            pair_point(snake@, 0),
            pair_point(fruit@, 0),
            barrier_obstacles(snake@, barriers@),
        ),
        r == NO_TARGET || safe_move(
            BOARD_SIDE as int,
            pair_point(snake@, 0),
            barrier_obstacles(snake@, barriers@),
            r as int,
        ),
        r != NO_TARGET ==> exists|path: Seq<Point>|
            #[trigger] is_path(
                BOARD_SIDE as int,
                pair_point(snake@, 0),
                pair_point(fruit@, 0),
                barrier_obstacles(snake@, barriers@),
                path,
            ) && path.len() > 1 && r == direction_code(pair_point(snake@, 0), path[1]) && nearest(
                BOARD_SIDE as int,
                pair_point(snake@, 0),
                seq![pair_point(fruit@, 0)],
                barrier_obstacles(snake@, barriers@),
                path,
            ),
        -1 <= r < 4,
{
    let mut obstacles = ObstacleSet::new();
    insert_points(&mut obstacles, snake, 1, 4);
    insert_points(&mut obstacles, barriers, 0, 12);
    assert(obstacles@ =~= barrier_obstacles(snake@, barriers@));
    let head = Point { x: snake[0] as i64, y: snake[1] as i64 };
    let target = Point { x: fruit[0] as i64, y: fruit[1] as i64 };
    assert(head == pair_point(snake@, 0));
    assert(target == pair_point(fruit@, 0));
    if !in_bounds(BOARD_SIDE as i64, target) || obstacles.contains(target) {
        proof {
            if target != head {
                lemma_blocked_goal_unreachable(BOARD_SIDE as int, head, target, obstacles@);
            }
        }
        return NO_TARGET;
    }
    if !in_bounds(BOARD_SIDE as i64, head) {
        return NO_TARGET;
    }
    match a_star(BOARD_SIDE, head, target, &obstacles) {
        Some(path) => {
            if path.len() > 1 {
                let r = decide_direction(head, path[1]);
                proof {
                    let p = path@[1];
                    assert(adjacent(path@[0], path@[1]));
                    assert(spec_in_bounds(BOARD_SIDE as int, p));
                    assert(!obstacles@.contains(p));
                    assert(adjacent(head, p) && spec_in_bounds(BOARD_SIDE as int, p) && !obstacles@.contains(p)
                        && direction_code(head, p) == r);
                    assert forall|j: int, other: Seq<Point>|
                        0 <= j < 1 && #[trigger] is_path(BOARD_SIDE as int, head, seq![target][j], obstacles@, other)
                            implies path@.len() <= other.len() by {
                        assert(seq![target][j] == target);
                    }
                    assert(is_path(BOARD_SIDE as int, head, target, obstacles@, path@));
                }
                r
            } else {
                NO_TARGET
            }
        },
        None => NO_TARGET,
    }
}

} // verus!
