use snake_pathing::grid::{decide_direction, in_bounds, Point};
use snake_pathing::obstacles::ObstacleSet;
use snake_pathing::search::a_star;
use std::collections::VecDeque;

fn pt(x: i64, y: i64) -> Point {
    Point { x, y }
}

fn set_of(points: &[(i64, i64)]) -> ObstacleSet {
    let mut s = ObstacleSet::new();
    for &(x, y) in points {
        s.insert(pt(x, y));
    }
    s
}

/// Shortest step count by breadth-first search, for comparison.
fn bfs_steps(n: i64, start: Point, goal: Point, blocked: &[(i64, i64)]) -> Option<usize> {
    let side = (n + 2) as usize;
    let mut dist = vec![usize::MAX; side * side];
    let idx = |p: Point| (p.y as usize) * side + p.x as usize;
    let mut queue = VecDeque::new();
    dist[idx(start)] = 0;
    queue.push_back(start);
    while let Some(c) = queue.pop_front() {
        if c == goal {
            return Some(dist[idx(c)]);
        }
        for (dx, dy) in [(0, 1), (-1, 0), (0, -1), (1, 0)] {
            let nb = pt(c.x + dx, c.y + dy);
            if nb.x < 1 || nb.x > n || nb.y < 1 || nb.y > n || blocked.contains(&(nb.x, nb.y)) {
                continue;
            }
            if dist[idx(nb)] == usize::MAX {
                dist[idx(nb)] = dist[idx(c)] + 1;
                queue.push_back(nb);
            }
        }
    }
    None
}

fn check_path(n: i64, start: Point, goal: Point, blocked: &[(i64, i64)], path: &[Point]) {
    assert_eq!(path[0], start);
    assert_eq!(*path.last().unwrap(), goal);
    for w in path.windows(2) {
        let d = (w[0].x - w[1].x).abs() + (w[0].y - w[1].y).abs();
        assert_eq!(d, 1);
    }
    for p in path {
        assert!(in_bounds(n, *p));
        assert!(!blocked.contains(&(p.x, p.y)));
    }
}

#[test]
fn open_board_path_length_is_manhattan() {
    let n = 6;
    let obstacles = ObstacleSet::new();
    for sx in 1..=n {
        for sy in 1..=n {
            for (gx, gy) in [(1, 1), (6, 6), (3, 4), (6, 1)] {
                let start = pt(sx, sy);
                let goal = pt(gx, gy);
                let path = a_star(n as i32, start, goal, &obstacles).expect("reachable");
                let manhattan = (sx - gx).abs() + (sy - gy).abs();
                assert_eq!(path.len() as i64, manhattan + 1);
                check_path(n, start, goal, &[], &path);
            }
        }
    }
}

#[test]
fn path_length_matches_breadth_first_search() {
    let n = 7;
    let walls: Vec<(i64, i64)> = vec![
        (2, 1), (2, 2), (2, 3), (2, 4), (2, 5), (2, 6),
        (4, 2), (4, 3), (4, 4), (4, 5), (4, 6), (4, 7),
        (6, 1), (6, 2), (6, 3), (6, 5), (6, 6), (6, 7),
    ];
    let obstacles = set_of(&walls);
    let start = pt(1, 1);
    for gx in 1..=n {
        for gy in 1..=n {
            let goal = pt(gx, gy);
            let expected = if walls.contains(&(gx, gy)) { None } else { bfs_steps(n, start, goal, &walls) };
            let got = a_star(n as i32, start, goal, &obstacles);
            match (expected, got) {
                (Some(steps), Some(path)) => {
                    assert_eq!(path.len(), steps + 1);
                    check_path(n, start, goal, &walls, &path);
                }
                (None, None) => {}
                (e, g) => panic!("goal ({}, {}): expected {:?}, got {:?}", gx, gy, e, g),
            }
        }
    }
}

#[test]
fn enclosed_goal_has_no_path() {
    let obstacles = set_of(&[(4, 5), (4, 3), (3, 4), (5, 4)]);
    assert!(a_star(8, pt(1, 1), pt(4, 4), &obstacles).is_none());
}

#[test]
fn border_goal_never_reachable() {
    let obstacles = ObstacleSet::new();
    assert!(a_star(8, pt(1, 3), pt(0, 3), &obstacles).is_none());
    assert!(a_star(8, pt(8, 3), pt(9, 3), &obstacles).is_none());
    assert!(a_star(8, pt(3, 1), pt(3, 0), &obstacles).is_none());
}

#[test]
fn blocked_goal_has_no_path() {
    let obstacles = set_of(&[(3, 3)]);
    assert!(a_star(8, pt(1, 1), pt(3, 3), &obstacles).is_none());
}

#[test]
fn goal_at_start_is_single_point() {
    let obstacles = ObstacleSet::new();
    let path = a_star(5, pt(2, 2), pt(2, 2), &obstacles).unwrap();
    assert_eq!(path, vec![pt(2, 2)]);
}

#[test]
fn direction_codes() {
    let h = pt(4, 4);
    assert_eq!(decide_direction(h, pt(4, 5)), 0);
    assert_eq!(decide_direction(h, pt(3, 4)), 1);
    assert_eq!(decide_direction(h, pt(4, 3)), 2);
    assert_eq!(decide_direction(h, pt(5, 4)), 3);
    assert_eq!(decide_direction(h, pt(5, 5)), -1);
    assert_eq!(decide_direction(h, pt(4, 4)), -1);
}

#[test]
fn obstacle_set_membership() {
    let mut s = ObstacleSet::new();
    assert!(!s.contains(pt(-3, 7)));
    s.insert(pt(-3, 7));
    assert!(s.contains(pt(-3, 7)));
    assert!(!s.contains(pt(7, -3)));
    s.insert(pt(i64::MIN, i64::MAX));
    assert!(s.contains(pt(i64::MIN, i64::MAX)));
    assert!(!s.contains(pt(i64::MAX, i64::MIN)));
}

#[test]
fn manhattan_distance() {
    assert_eq!(pt(1, 8).manhattan(&pt(5, 2)), 10);
    assert_eq!(pt(3, 3).manhattan(&pt(3, 3)), 0);
}
