//! The single-step greedy move on the fixed 8×8 board, with no search.

use vstd::prelude::*;

verus! {

/// Lowest legal coordinate of the fixed board.
pub const LOW: i32 = 1;

/// Highest legal coordinate of the fixed board.
pub const HIGH: i32 = 8;

/// Direction `d` (0 up, 1 left, 2 down, 3 right) is open for a head at
/// `(hx, hy)` whose second segment is `(sx, sy)`: it neither reverses onto the
/// second segment nor leaves the board.
pub open spec fn move_open(hx: int, hy: int, sx: int, sy: int, d: int) -> bool {
    if d == 0 {
        !((hx == sx && hy + 1 == sy) || hy == HIGH)
    } else if d == 1 {
        !((hx - 1 == sx && hy == sy) || hx == LOW)
    } else if d == 2 {
        !((hx == sx && hy - 1 == sy) || hy == LOW)
    } else {
        !((hx + 1 == sx && hy == sy) || hx == HIGH)
    }
}

/// The greedy choice: right, left, up or down when the fruit lies that way
/// and the move is open, tried in that order; failing those the lowest open
/// code; -1 when no move is open.
pub open spec fn greedy_choice(hx: int, hy: int, sx: int, sy: int, fx: int, fy: int) -> int {
    if fx > hx && move_open(hx, hy, sx, sy, 3) {
        3
    } else if fx < hx && move_open(hx, hy, sx, sy, 1) {
        1
    } else if fy > hy && move_open(hx, hy, sx, sy, 0) {
        0
    } else if fy < hy && move_open(hx, hy, sx, sy, 2) {
        2
    } else if move_open(hx, hy, sx, sy, 0) {
        0
    } else if move_open(hx, hy, sx, sy, 1) {
        1
    } else if move_open(hx, hy, sx, sy, 2) {
        2
    } else if move_open(hx, hy, sx, sy, 3) {
        3
    } else {
        -1
    }
}

fn open_moves(hx: i32, hy: i32, sx: i32, sy: i32) -> (r: [bool; 4])
    ensures
        forall|d: int| 0 <= d < 4 ==> #[trigger] r[d] == move_open(hx as int, hy as int, sx as int, sy as int, d),
{
    let mut options: [bool; 4] = [true, true, true, true];
    if (hx as i64 + 1 == sx as i64 && hy == sy) || hx == HIGH {
        options[3] = false;
    }
    if (hx as i64 - 1 == sx as i64 && hy == sy) || hx == LOW {
        options[1] = false;
    }
    if (hx == sx && hy as i64 + 1 == sy as i64) || hy == HIGH {
        options[0] = false;
    }
    if (hx == sx && hy as i64 - 1 == sy as i64) || hy == LOW {
        options[2] = false;
    }
    options
}

/// One greedy step for the agent `snake` (head and second segment as the
/// first four numbers) toward `fruit` (its first two numbers).
pub fn greedy_snake_move(snake: &[i32], fruit: &[i32]) -> (r: i32)
    requires
        snake@.len() >= 4,
        fruit@.len() >= 2,
    ensures
        r == greedy_choice(
            snake@[0] as int,
            snake@[1] as int,
            snake@[2] as int,
            snake@[3] as int,
            fruit@[0] as int,
            fruit@[1] as int,
        ),
{
    let head_x = snake[0];
    let head_y = snake[1];
    let fruit_x = fruit[0];
    let fruit_y = fruit[1];
    let options = open_moves(head_x, head_y, snake[2], snake[3]);

    if fruit_x > head_x && options[3] {
        3
    } else if fruit_x < head_x && options[1] {
        1
    } else if fruit_y > head_y && options[0] {
        0
    } else if fruit_y < head_y && options[2] {
        2
    } else if options[0] {
        0
    } else if options[1] {
        1
    } else if options[2] {
        2
    } else if options[3] {
        3
    } else {
        -1
    }
}

} // verus!
