use snake_pathing::decision::{choose_shorter, greedy_snake_move_barriers, greedy_snake_step, FALLBACK, NO_TARGET};
use snake_pathing::grid::Point;
use snake_pathing::heuristic::greedy_snake_move;
use snake_pathing::obstacles::{build_obstacles, parse_snake};

fn pt(x: i64, y: i64) -> Point {
    Point { x, y }
}

#[test]
fn single_food_to_the_right() {
    let snake = [1, 1, 1, 0, 1, 0, 1, 0];
    let barriers = [0; 24];
    assert_eq!(greedy_snake_move_barriers(&snake, &[2, 1], &barriers), 3);
    assert_eq!(greedy_snake_step(8, &snake, 1, &[], 1, &[2, 1], 0), 3);
}

#[test]
fn food_on_barrier_is_no_target() {
    let snake = [1, 4, 1, 3, 1, 2, 1, 1];
    let mut barriers = [0; 24];
    barriers[0] = 5;
    barriers[1] = 5;
    assert_eq!(greedy_snake_move_barriers(&snake, &[5, 5], &barriers), NO_TARGET);
}

#[test]
fn food_off_board_or_on_body_is_no_target() {
    let snake = [1, 4, 1, 3, 1, 2, 1, 1];
    let barriers = [0; 24];
    assert_eq!(greedy_snake_move_barriers(&snake, &[9, 5], &barriers), NO_TARGET);
    assert_eq!(greedy_snake_move_barriers(&snake, &[1, 2], &barriers), NO_TARGET);
    assert_eq!(greedy_snake_move_barriers(&snake, &[1, 4], &barriers), NO_TARGET);
}

#[test]
fn barrier_maze_route() {
    let snake = [1, 4, 1, 3, 1, 2, 1, 1];
    let fruit = [5, 5];
    let barriers = [2, 7, 2, 6, 3, 7, 3, 6, 4, 6, 5, 6, 6, 6, 7, 6, 4, 5, 4, 4, 4, 3, 5, 4];
    // every shortest route (eleven steps) starts to the right
    assert_eq!(greedy_snake_move_barriers(&snake, &fruit, &barriers), 3);
}

#[test]
fn nearer_food_wins() {
    let snake = [4, 4, 4, 3, 4, 2, 4, 1];
    // (8,5) is five steps away to the right, (4,7) three steps up
    let foods = [8, 5, 4, 7];
    assert_eq!(greedy_snake_step(8, &snake, 1, &[], 2, &foods, 0), 0);
    let foods = [4, 7, 8, 5];
    assert_eq!(greedy_snake_step(8, &snake, 1, &[], 2, &foods, 0), 0);
}

#[test]
fn same_snapshot_same_decision() {
    let snake = [3, 3, 3, 2, 3, 1, 2, 1];
    let others = [6, 6, 6, 5, 6, 4, 6, 3];
    let foods = [7, 7, 1, 8, 5, 2];
    let a = greedy_snake_step(8, &snake, 3, &others, 3, &foods, 10);
    let b = greedy_snake_step(8, &snake, 3, &others, 3, &foods, 10);
    assert_eq!(a, b);
    assert!((0..4).contains(&a));
}

#[test]
fn no_reachable_food_falls_back() {
    let snake = [1, 1, 1, 2, 1, 3, 1, 4];
    // food boxed in by another agent's body and the wall
    let others = [8, 7, 7, 8, 7, 8, 1, 1];
    let foods = [8, 8];
    assert_eq!(greedy_snake_step(8, &snake, 2, &others, 1, &foods, 0), FALLBACK);
    assert_eq!(greedy_snake_step(8, &snake, 1, &[], 0, &[], 0), FALLBACK);
}

#[test]
fn head_off_board_is_no_target() {
    let snake = [0, 4, 1, 4, 2, 4, 3, 4];
    assert_eq!(greedy_snake_step(8, &snake, 1, &[], 1, &[5, 5], 0), NO_TARGET);
    let snake = [1, 1, 1, 2, 1, 3, 1, 4];
    assert_eq!(greedy_snake_step(0, &snake, 1, &[], 1, &[5, 5], 0), NO_TARGET);
}

#[test]
fn step_avoids_other_segments_but_not_tails() {
    // the direct route right is blocked by another agent's body
    let snake = [2, 4, 1, 4, 1, 3, 1, 2];
    let others = [3, 4, 3, 5, 3, 6, 3, 3];
    let foods = [5, 4];
    let d = greedy_snake_step(8, &snake, 2, &others, 1, &foods, 0);
    // (3,3) is a tail and may be entered, so the path goes down and around
    assert_eq!(d, 2);
}

#[test]
fn head_neighbours_blocked_with_three_agents() {
    let me = parse_snake(&[3, 5, 2, 5, 1, 5, 1, 4]);
    let others = [5, 5, 6, 5, 7, 5, 8, 5, 1, 8, 2, 8, 3, 8, 4, 8];
    let obstacles = build_obstacles(8, 3, &me, &others);
    for p in [pt(5, 6), pt(5, 4), pt(4, 5), pt(6, 5)] {
        assert!(obstacles.contains(p));
    }
    let obstacles = build_obstacles(8, 2, &me, &others);
    assert!(!obstacles.contains(pt(5, 6)));
    assert!(!obstacles.contains(pt(4, 5)));
    assert!(obstacles.contains(pt(6, 5)));
}

#[test]
fn obstacle_model() {
    let me = parse_snake(&[3, 3, 3, 2, 3, 1, 4, 1]);
    let others = [6, 6, 6, 5, 6, 4, 6, 3];
    let obstacles = build_obstacles(8, 2, &me, &others);
    assert!(obstacles.contains(pt(3, 2)));
    assert!(!obstacles.contains(pt(3, 3)));
    assert!(!obstacles.contains(pt(3, 1)));
    assert!(obstacles.contains(pt(6, 6)));
    assert!(obstacles.contains(pt(6, 4)));
    assert!(!obstacles.contains(pt(6, 3)));
    for k in 0..=9 {
        assert!(obstacles.contains(pt(k, 0)));
        assert!(obstacles.contains(pt(k, 9)));
        assert!(obstacles.contains(pt(0, k)));
        assert!(obstacles.contains(pt(9, k)));
    }
    assert!(!obstacles.contains(pt(10, 0)));
    assert!(!obstacles.contains(pt(5, 5)));
}

#[test]
fn shorter_candidate_replaces_only_when_strictly_shorter() {
    let a = Some(vec![pt(1, 1), pt(1, 2)]);
    let b = Some(vec![pt(1, 1), pt(2, 1)]);
    assert_eq!(choose_shorter(a.clone(), b.clone()), a);
    let c = Some(vec![pt(1, 1)]);
    assert_eq!(choose_shorter(a.clone(), c.clone()), c);
    assert_eq!(choose_shorter(None, b.clone()), b);
    assert_eq!(choose_shorter(a.clone(), None), a);
}

#[test]
fn greedy_move_toward_fruit() {
    assert_eq!(greedy_snake_move(&[3, 3, 2, 3, 1, 3, 1, 2], &[6, 3]), 3);
    assert_eq!(greedy_snake_move(&[3, 3, 4, 3, 5, 3, 6, 3], &[1, 3]), 1);
    assert_eq!(greedy_snake_move(&[3, 3, 3, 2, 3, 1, 2, 1], &[3, 7]), 0);
    assert_eq!(greedy_snake_move(&[3, 3, 3, 4, 3, 5, 3, 6], &[3, 1]), 2);
}

#[test]
fn greedy_move_falls_back_to_open_move() {
    // fruit straight behind: reversing is closed, so the lowest open code wins
    assert_eq!(greedy_snake_move(&[3, 3, 4, 3, 5, 3, 6, 3], &[7, 3]), 0);
    // corner at (8,8) with the body below: only left is open
    assert_eq!(greedy_snake_move(&[8, 8, 8, 7, 8, 6, 8, 5], &[8, 8]), 1);
    // at (1,1) with the body to the right: only up is open
    assert_eq!(greedy_snake_move(&[1, 1, 2, 1, 3, 1, 4, 1], &[5, 1]), 0);
}

#[test]
fn equally_near_foods_first_listed_wins() {
    let snake = [4, 4, 3, 4, 2, 4, 1, 4];
    assert_eq!(greedy_snake_step(8, &snake, 1, &[], 2, &[4, 6, 6, 4], 0), 0);
    assert_eq!(greedy_snake_step(8, &snake, 1, &[], 2, &[6, 4, 4, 6], 0), 3);
}

#[test]
fn food_on_head_gives_fallback() {
    let snake = [4, 4, 3, 4, 2, 4, 1, 4];
    // a food on the head gives a one-point path, which is kept as the shortest
    assert_eq!(greedy_snake_step(8, &snake, 1, &[], 2, &[4, 4, 4, 6], 0), FALLBACK);
    assert_eq!(greedy_snake_step(8, &[2, 2, 2, 1, 3, 1, 4, 1], 1, &[], 1, &[2, 2], 0), FALLBACK);
    assert_eq!(greedy_snake_move_barriers(&snake, &[4, 4], &[0; 24]), NO_TARGET);
}

#[test]
fn step_food_on_obstacle_is_no_target() {
    let snake = [4, 4, 4, 3, 4, 2, 4, 1];
    let others = [6, 6, 6, 5, 6, 4, 6, 3];
    // another agent's second segment
    assert_eq!(greedy_snake_step(8, &snake, 2, &others, 1, &[6, 5], 0), NO_TARGET);
    // the agent's own second segment
    assert_eq!(greedy_snake_step(8, &snake, 1, &[], 1, &[4, 3], 0), NO_TARGET);
    // the wall and beyond
    assert_eq!(greedy_snake_step(8, &snake, 1, &[], 1, &[0, 4], 0), NO_TARGET);
    assert_eq!(greedy_snake_step(8, &snake, 1, &[], 1, &[12, 4], 0), NO_TARGET);
}

#[test]
fn step_checks_only_the_nearest_food() {
    let snake = [4, 4, 4, 3, 4, 2, 4, 1];
    let others = [6, 6, 6, 5, 6, 4, 6, 3];
    // (4,3) is one step away and blocked: no target, although (8,8) is free
    assert_eq!(greedy_snake_step(8, &snake, 1, &[], 2, &[8, 8, 4, 3], 0), NO_TARGET);
    // (4,6) is nearest and free; the blocked (6,5) farther away is skipped
    assert_eq!(greedy_snake_step(8, &snake, 2, &others, 2, &[4, 6, 6, 5], 0), 0);
    // (6,5) and (3,6) are equally near: the first listed decides
    assert_eq!(greedy_snake_step(8, &snake, 2, &others, 2, &[6, 5, 3, 6], 0), NO_TARGET);
    let d = greedy_snake_step(8, &snake, 2, &others, 2, &[3, 6, 6, 5], 0);
    assert!(d == 0 || d == 1);
}
