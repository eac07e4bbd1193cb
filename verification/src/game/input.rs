//! Keys and what they ask for.

use vstd::prelude::*;

verus! {

/// A pressed key.
#[derive(Debug, Clone, Copy, PartialEq, Eq, Structural)]
pub enum Key {
    Enter,
    Esc,
    Backspace,
    Up,
    Down,
    Left,
    Right,
    Char(char),
    Other,
}

/// What has to be done after a key.
#[derive(Debug, Clone, Copy, PartialEq, Eq, Structural)]
pub enum Effect {
    /// Show the present state.
    Redraw,
    /// Search the present position and show what was found.
    Search,
    /// Leave.
    Quit,
}

/// `at` moved one step back, but not below 0.
pub open spec fn back(at: int) -> int {
    if at > 0 {
        at - 1
    } else {
        0
    }
}

/// `at` moved one step on, but not past the last of `size` places.
pub open spec fn on(at: int, size: int) -> int {
    if at + 1 < size {
        at + 1
    } else {
        size - 1
    }
}

/// The row and column that an arrow key leads to; other keys lead nowhere else.
pub open spec fn moved(row: int, col: int, size: int, key: Key) -> (int, int) {
    match key {
        Key::Up => (back(row), col),
        Key::Down => (on(row, size), col),
        Key::Left => (row, back(col)),
        Key::Right => (row, on(col, size)),
        _ => (row, col),
    }
}

/// The row and column that an arrow key leads to: see `moved`.
pub fn move_cursor(row: usize, col: usize, size: usize, key: Key) -> (cursor: (usize, usize))
    requires
        row < size,
        col < size,
    ensures
        (cursor.0 as int, cursor.1 as int) == moved(row as int, col as int, size as int, key),
{
    match key {
        Key::Up => (row.saturating_sub(1), col),
        Key::Down => (if row + 1 < size {
            row + 1
        } else {
            size - 1
        }, col),
        Key::Left => (row, col.saturating_sub(1)),
        Key::Right => (row, if col + 1 < size {
            col + 1
        } else {
            size - 1
        }),
        _ => (row, col),
    }
}

/// An arrow key moves the cursor one cell, unless the edge is reached, and the opposite key
/// moves it back.
pub proof fn law_arrows_move_one_cell(row: int, col: int, size: int)
    requires
        0 <= row < size,
        0 <= col < size,
    ensures
        row > 0 ==> moved(row, col, size, Key::Up) == (row - 1, col),
        row == 0 ==> moved(row, col, size, Key::Up) == (row, col),
        row + 1 < size ==> {
            let below = moved(row, col, size, Key::Down);
            below != (row, col) && moved(below.0, below.1, size, Key::Up) == (row, col)
        },
        row + 1 == size ==> moved(row, col, size, Key::Down) == (row, col),
        col > 0 ==> moved(row, col, size, Key::Left) == (row, col - 1),
        col == 0 ==> moved(row, col, size, Key::Left) == (row, col),
        col + 1 < size ==> {
            let right = moved(row, col, size, Key::Right);
            right != (row, col) && moved(right.0, right.1, size, Key::Left) == (row, col)
        },
        col + 1 == size ==> moved(row, col, size, Key::Right) == (row, col),
{
}

/// No key moves the cursor off the board.
pub proof fn law_cursor_stays_on_board(row: int, col: int, size: int, key: Key)
    requires
        0 <= row < size,
        0 <= col < size,
    ensures
        0 <= moved(row, col, size, key).0 < size,
        0 <= moved(row, col, size, key).1 < size,
{
}

} // verus!
