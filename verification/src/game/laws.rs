//! What holds of every game played on a board.

use vstd::prelude::*;
use crate::game::board::{
    counting, empty_cells, law_play_keeps_consistent, lemma_index_in_grid, relative, BoardState,
    Color,
};
use crate::game::lines::{
    along, has_empty, has_line, holds, lemma_count_absent, lemma_count_total, lemma_count_with_cell,
    run,
};
use crate::grid::with_cell;

verus! {

/// The empty board is a consistent position.
pub proof fn law_initial_is_consistent(size: int, win_length: int)
    requires
        2 <= win_length <= size,
        size * size <= isize::MAX,
    ensures
        BoardState::initial(size, win_length).consistent(),
{
    let state = BoardState::initial(size, win_length);
    lemma_count_absent(state.rows, 1);
    lemma_count_absent(state.rows, 2);
    assert(0 < size * size) by (nonlinear_arith)
        requires
            size >= 2,
    ;
    assert forall|color: Color|
        !(#[trigger] has_line(state.rows, size, color.stone(), win_length)) by {
        if has_line(state.rows, size, color.stone(), win_length) {
            let (r, c, dir) = choose|r: int, c: int, dir: int|
                0 <= dir < 4 && #[trigger] run(state.rows, size, color.stone(), r, c, dir, win_length);
            assert(holds(state.rows, size, color.stone(), along(r, c, dir, 0)));
        }
    }
}

/// Taking a legal move back with the snapshot made before it restores the position.
pub proof fn law_undo_restores(state: BoardState, row: int, col: int)
    requires
        state.shaped(),
        state.legal(row, col),
    ensures
        state.after(row, col).undone(row, col, state.kept()) == state,
{
    let restored = with_cell(state.placed(row, col), row, col, 0u8);
    assert(restored[row] =~= state.rows[row]);
    assert(restored =~= state.rows);
}

/// The index of a cell and its row and column determine each other.
pub proof fn law_index_round_trip(size: int, row: int, col: int, idx: int)
    requires
        0 <= row < size,
        0 <= col < size,
        0 <= idx < size * size,
    ensures
        0 <= row * size + col < size * size,
        ((row * size + col) / size, (row * size + col) % size) == (row, col),
        0 <= idx / size < size,
        0 <= idx % size < size,
        (idx / size) * size + idx % size == idx,
{
    lemma_index_in_grid(size, row, col);
    vstd::arithmetic::div_mod::lemma_fundamental_div_mod(idx, size);
    vstd::arithmetic::div_mod::lemma_mod_bound(idx, size);
    assert(size * (idx / size) == (idx / size) * size) by (nonlinear_arith);
    assert(0 <= idx / size < size) by (nonlinear_arith)
        requires
            size > 0,
            0 <= idx < size * size,
            idx == size * (idx / size) + idx % size,
            0 <= idx % size < size,
    ;
}

proof fn lemma_filter_increasing(bound: nat, keep: spec_fn(int) -> bool)
    ensures
        forall|i: int|
            0 <= i < counting(bound).filter(keep).len() ==> {
                let x = #[trigger] counting(bound).filter(keep)[i];
                0 <= x < bound && keep(x)
            },
        forall|i: int, j: int|
            0 <= i < j < counting(bound).filter(keep).len()
                ==> #[trigger] counting(bound).filter(keep)[i]
                < #[trigger] counting(bound).filter(keep)[j],
        forall|x: int|
            0 <= x < bound && keep(x) ==> #[trigger] counting(bound).filter(
                keep,
            ).contains(x),
    decreases bound,
{
    reveal(Seq::filter);
    let all = counting(bound);
    let kept = all.filter(keep);
    if bound > 0 {
        let shorter = counting((bound - 1) as nat);
        lemma_filter_increasing((bound - 1) as nat, keep);
        assert(all.drop_last() =~= shorter);
        let rest = shorter.filter(keep);
        assert(kept == if keep(bound - 1) {
            rest.push(bound - 1)
        } else {
            rest
        });
        assert forall|x: int| 0 <= x < bound && keep(x) implies #[trigger] kept.contains(x) by {
            if x == bound - 1 {
                assert(kept[kept.len() - 1] == x);
            } else {
                assert(rest.contains(x));
                let i = choose|i: int| 0 <= i < rest.len() && rest[i] == x;
                assert(kept[i] == x);
            }
        }
    }
}

/// The listed actions are exactly the legal moves, each once, in increasing order.
pub proof fn law_listed_actions_are_legal(state: BoardState)
    requires
        state.shaped(),
    ensures
        forall|i: int|
            0 <= i < state.open_actions().len() ==> {
                let a = (#[trigger] state.open_actions()[i]) as int;
                a < state.size * state.size && state.legal(a / state.size, a % state.size)
            },
        forall|i: int, j: int|
            0 <= i < j < state.open_actions().len() ==> #[trigger] state.open_actions()[i]
                < #[trigger] state.open_actions()[j],
        forall|row: int, col: int| #[trigger]
            state.legal(row, col) ==> state.open_actions().contains(
                (row * state.size + col) as usize,
            ),
{
    let size = state.size;
    let n = (size * size) as nat;
    if !state.over {
        let keep = |i: int| state.rows[i / size][i % size] == 0;
        lemma_filter_increasing(n, keep);
        let cells = empty_cells(state.rows, size, n);
        assert(cells == counting(n).filter(keep));
        assert forall|i: int| 0 <= i < state.open_actions().len() implies {
            let a = (#[trigger] state.open_actions()[i]) as int;
            a < size * size && state.legal(a / size, a % size)
        } by {
            let a = cells[i];
            law_index_round_trip(size, 0, 0, a);
        }
        assert forall|row: int, col: int| #[trigger] state.legal(row, col) implies
            state.open_actions().contains((row * size + col) as usize) by {
            lemma_index_in_grid(size, row, col);
            let a = row * size + col;
            assert(keep(a));
            assert(cells.contains(a));
            let i = choose|i: int| 0 <= i < cells.len() && cells[i] == a;
            assert(state.open_actions()[i] == a as usize);
        }
    }
}

/// The listed positions are the listed actions as rows and columns, so a move is legal
/// exactly when it is listed.
pub proof fn law_listed_positions_are_legal(state: BoardState, row: usize, col: usize)
    requires
        state.shaped(),
    ensures
        state.open_positions().len() == state.open_actions().len(),
        state.open_positions().contains((row, col)) <==> state.legal(row as int, col as int),
{
    let size = state.size;
    let cells = state.open_cells();
    assert(size <= size * size) by (nonlinear_arith)
        requires
            size >= 1,
    ;
    law_listed_actions_are_legal(state);
    if state.open_positions().contains((row, col)) {
        let i = choose|i: int|
            0 <= i < state.open_positions().len() && state.open_positions()[i] == (row, col);
        let a = state.open_actions()[i];
        let keep = |i: int| state.rows[i / size][i % size] == 0;
        lemma_filter_increasing((size * size) as nat, keep);
        assert(cells == counting((size * size) as nat).filter(keep));
        assert(a as int == cells[i]);
        law_index_round_trip(size, 0, 0, a as int);
    }
    if state.legal(row as int, col as int) {
        let a = (row * size + col) as usize;
        lemma_index_in_grid(size, row as int, col as int);
        let i = choose|i: int| 0 <= i < state.open_actions().len() && state.open_actions()[i] == a;
        let keep = |i: int| state.rows[i / size][i % size] == 0;
        lemma_filter_increasing((size * size) as nat, keep);
        assert(cells == counting((size * size) as nat).filter(keep));
        assert(a as int == cells[i]);
        assert(state.open_positions()[i] == (row, col));
    }
}

/// A consistent game that is not over offers a move, and one that is over offers none.
pub proof fn law_open_game_has_a_move(state: BoardState)
    requires
        state.consistent(),
    ensures
        state.over <==> state.open_actions().len() == 0,
{
    if !state.over {
        lemma_count_total(state.rows, state.size, state.size);
        assert(has_empty(state.rows));
        let (r, c) = choose|r: int, c: int|
            0 <= r < state.rows.len() && 0 <= c < state.rows[r].len() && #[trigger] state.rows[r][c] == 0;
        law_listed_actions_are_legal(state);
        assert(state.legal(r, c));
    }
}

/// Every legal move adds one stone, and a board never holds more stones than cells: a game
/// ends after at most as many moves as the board has cells.
pub proof fn law_game_ends(state: BoardState, row: int, col: int)
    requires
        state.consistent(),
    ensures
        0 <= state.steps <= state.size * state.size,
        state.steps == state.size * state.size ==> state.over,
        state.legal(row, col) ==> state.after(row, col).steps == state.steps + 1
            && state.after(row, col).consistent(),
{
    lemma_count_total(state.rows, state.size, state.size);
    if state.legal(row, col) {
        law_play_keeps_consistent(state, row, col);
    }
}

/// The two players move in turn.
pub proof fn law_players_alternate(state: BoardState)
    requires
        state.consistent(),
    ensures
        state.player == Color::Black <==> state.steps % 2 == 0,
{
}

/// The encoding marks exactly the empty cells with 0, and the other player would see own
/// and opposing stones exchanged.
pub proof fn law_encoding_is_relative(state: BoardState, row: int, col: int)
    requires
        state.consistent(),
        state.on_board(row, col),
    ensures
        ({
            let i = row * state.size + col;
            let there = BoardState { player: state.player.other(), ..state };
            &&& 0 <= i < state.encoding().len()
            &&& state.encoding()[i] == relative(state.rows[row][col], state.player)
            &&& (state.encoding()[i] == 0) <==> (state.rows[row][col] == 0)
            &&& (state.encoding()[i] == 1) <==> (there.encoding()[i] == 2)
            &&& (state.encoding()[i] == 2) <==> (there.encoding()[i] == 1)
        }),
{
    lemma_index_in_grid(state.size, row, col);
    assert(state.rows[row][col] <= 2);
}

/// Somebody who has won made the last move, so at least one stone lies on the board.
pub proof fn law_winner_moved_last(state: BoardState)
    requires
        state.consistent(),
    ensures
        state.winner is Some ==> state.winner == Some(state.player.other()) && state.steps > 0,
{
    if state.steps <= 0 {
        lemma_count_total(state.rows, state.size, state.size);
        assert forall|color: Color|
            !(#[trigger] has_line(state.rows, state.size, color.stone(), state.win_length)) by {
            if has_line(state.rows, state.size, color.stone(), state.win_length) {
                let (r, c, dir) = choose|r: int, c: int, dir: int|
                    0 <= dir < 4 && #[trigger] run(
                        state.rows,
                        state.size,
                        color.stone(),
                        r,
                        c,
                        dir,
                        state.win_length,
                    );
                assert(holds(state.rows, state.size, color.stone(), along(r, c, dir, 0)));
                let (row, col) = along(r, c, dir, 0);
                let cleared = with_cell(state.rows, row, col, 0u8);
                lemma_count_with_cell(state.rows, row, col, 0, color.stone());
                assert forall|y: int, x: int| 0 <= y < state.size && 0 <= x < state.size implies
                    #[trigger] cleared[y][x] <= 2 by {
                    assert(state.rows[y][x] <= 2);
                }
                lemma_count_total(cleared, state.size, state.size);
            }
        }
        if let Some(color) = state.winner {
            assert(has_line(state.rows, state.size, color.stone(), state.win_length));
        }
    }
}

/// How many entries of an encoding are not 0.
pub open spec fn filled(state: Seq<i32>) -> nat
    decreases state.len(),
{
    if state.len() == 0 {
        0
    } else {
        filled(state.drop_last()) + if state.last() != 0 {
            1nat
        } else {
            0nat
        }
    }
}

proof fn lemma_filled_same(a: Seq<i32>, b: Seq<i32>)
    requires
        a.len() == b.len(),
        forall|i: int| 0 <= i < a.len() ==> (#[trigger] a[i] == 0) == (b[i] == 0),
    ensures
        filled(a) == filled(b),
    decreases a.len(),
{
    if a.len() > 0 {
        assert((a[a.len() - 1] == 0) == (b[a.len() - 1] == 0));
        assert forall|i: int| 0 <= i < a.len() - 1 implies (#[trigger] a.drop_last()[i] == 0) == (
        b.drop_last()[i] == 0) by {
            assert((a[i] == 0) == (b[i] == 0));
        }
        lemma_filled_same(a.drop_last(), b.drop_last());
    }
}

proof fn lemma_filled_one_more(a: Seq<i32>, b: Seq<i32>, at: int)
    requires
        a.len() == b.len(),
        0 <= at < a.len(),
        a[at] == 0,
        b[at] != 0,
        forall|i: int| 0 <= i < a.len() && i != at ==> (#[trigger] a[i] == 0) == (b[i] == 0),
    ensures
        filled(b) == filled(a) + 1,
    decreases a.len(),
{
    let last = a.len() - 1;
    assert forall|i: int| 0 <= i < last && i != at implies (#[trigger] a.drop_last()[i] == 0) == (
    b.drop_last()[i] == 0) by {
        assert((a[i] == 0) == (b[i] == 0));
    }
    if at == last {
        lemma_filled_same(a.drop_last(), b.drop_last());
    } else {
        assert((a[last] == 0) == (b[last] == 0));
        lemma_filled_one_more(a.drop_last(), b.drop_last(), at);
    }
}

proof fn lemma_unfilled(a: Seq<i32>)
    requires
        forall|i: int| 0 <= i < a.len() ==> #[trigger] a[i] == 0,
    ensures
        filled(a) == 0,
    decreases a.len(),
{
    if a.len() > 0 {
        assert(a[a.len() - 1] == 0);
        assert forall|i: int| 0 <= i < a.len() - 1 implies #[trigger] a.drop_last()[i] == 0 by {
            assert(a[i] == 0);
        }
        lemma_unfilled(a.drop_last());
    }
}

/// The encoding of the empty board is 0 everywhere.
pub proof fn law_empty_board_is_unfilled(size: int, win_length: int)
    requires
        2 <= win_length <= size,
        size * size <= isize::MAX,
    ensures
        filled(BoardState::initial(size, win_length).encoding()) == 0,
{
    let state = BoardState::initial(size, win_length);
    assert forall|i: int| 0 <= i < state.encoding().len() implies #[trigger] state.encoding()[i]
        == 0 by {
        law_index_round_trip(size, 0, 0, i);
        assert(state.rows[i / size][i % size] == 0);
    }
    lemma_unfilled(state.encoding());
}

/// A legal move makes exactly one more entry of the encoding differ from 0.
pub proof fn law_move_fills_one_entry(state: BoardState, row: int, col: int)
    requires
        state.consistent(),
        state.legal(row, col),
    ensures
        filled(state.after(row, col).encoding()) == filled(state.encoding()) + 1,
{
    let size = state.size;
    let next = state.after(row, col);
    let at = row * size + col;
    law_play_keeps_consistent(state, row, col);
    lemma_index_in_grid(size, row, col);
    assert forall|i: int| 0 <= i < state.encoding().len() && i != at implies (
    #[trigger] state.encoding()[i] == 0) == (next.encoding()[i] == 0) by {
        law_index_round_trip(size, row, col, i);
        let r = i / size;
        let c = i % size;
        assert(state.on_board(r, c) && next.on_board(r, c));
        assert(state.rows[r][c] <= 2);
        assert((r, c) != (row, col));
        assert(next.rows[r][c] == state.rows[r][c]);
    }
    assert(state.rows[row][col] == 0);
    assert(next.rows[row][col] == state.player.stone());
    lemma_filled_one_more(state.encoding(), next.encoding(), at);
}

/// `from` and `i` times `step` more.
pub open spec fn stepped(from: int, step: int, i: int) -> int {
    from + i * step
}

/// The `len` cells from (`row`, `col`) on, each `down` rows and `right` columns further than the
/// one before, all lie on the grid and hold `stone`.
pub open spec fn straight(
    rows: Seq<Seq<u8>>,
    size: int,
    stone: u8,
    row: int,
    col: int,
    down: int,
    right: int,
    len: int,
) -> bool {
    forall|i: int|
        0 <= i < len ==> {
            let r = #[trigger] stepped(row, down, i);
            let c = stepped(col, right, i);
            0 <= r < size && 0 <= c < size && rows[r][c] == stone
        }
}

proof fn lemma_line_is_straight(rows: Seq<Seq<u8>>, size: int, stone: u8, len: int)
    requires
        has_line(rows, size, stone, len),
    ensures
        exists|row: int, col: int, down: int, right: int|
            -1 <= down <= 1 && -1 <= right <= 1 && !(down == 0 && right == 0)
                && #[trigger] straight(rows, size, stone, row, col, down, right, len),
{
    let (row, col, dir) = choose|row: int, col: int, dir: int|
        0 <= dir < 4 && #[trigger] run(rows, size, stone, row, col, dir, len);
    let down: int = if dir == 0 {
        0
    } else {
        1
    };
    let right: int = if dir == 1 {
        0
    } else if dir == 3 {
        -1
    } else {
        1
    };
    assert forall|i: int| 0 <= i < len implies {
        let r = #[trigger] stepped(row, down, i);
        let c = stepped(col, right, i);
        0 <= r < size && 0 <= c < size && rows[r][c] == stone
    } by {
        let r = stepped(row, down, i);
        let c = stepped(col, right, i);
        assert(i * 0 == 0 && i * 1 == i && i * -1 == -i);
        assert(along(row, col, dir, i) == (r, c));
    }
    assert(straight(rows, size, stone, row, col, down, right, len));
}

proof fn lemma_straight_is_line(
    rows: Seq<Seq<u8>>,
    size: int,
    stone: u8,
    row: int,
    col: int,
    down: int,
    right: int,
    len: int,
)
    requires
        len >= 1,
        -1 <= down <= 1,
        -1 <= right <= 1,
        !(down == 0 && right == 0),
        straight(rows, size, stone, row, col, down, right, len),
    ensures
        has_line(rows, size, stone, len),
{
    let back = down < 0 || (down == 0 && right < 0);
    let dir: int = if down == 0 {
        0
    } else if right == 0 {
        1
    } else if down == right {
        2
    } else {
        3
    };
    let start = if back {
        (row + (len - 1) * down, col + (len - 1) * right)
    } else {
        (row, col)
    };
    assert forall|i: int| 0 <= i < len implies holds(
        rows,
        size,
        stone,
        #[trigger] along(start.0, start.1, dir, i),
    ) by {
        let k = if back {
            len - 1 - i
        } else {
            i
        };
        let r = stepped(row, down, k);
        let c = stepped(col, right, k);
        assert(k * 0 == 0 && k * 1 == k && k * -1 == -k);
        assert((len - 1) * 0 == 0 && (len - 1) * 1 == len - 1 && (len - 1) * -1 == -(len - 1));
        assert(along(start.0, start.1, dir, i) == (r, c));
        assert(rows[r][c] == stone);
    }
    assert(run(rows, size, stone, start.0, start.1, dir, len));
}

/// A line is a run of stones in any of the eight directions: along a row, along a column or
/// along a diagonal, either way.
pub proof fn law_lines_run_in_all_directions(rows: Seq<Seq<u8>>, size: int, stone: u8, len: int)
    requires
        len >= 1,
    ensures
        has_line(rows, size, stone, len) <==> exists|row: int, col: int, down: int, right: int|
            -1 <= down <= 1 && -1 <= right <= 1 && !(down == 0 && right == 0)
                && #[trigger] straight(rows, size, stone, row, col, down, right, len),
{
    if has_line(rows, size, stone, len) {
        lemma_line_is_straight(rows, size, stone, len);
    }
    if exists|row: int, col: int, down: int, right: int|
        -1 <= down <= 1 && -1 <= right <= 1 && !(down == 0 && right == 0) && #[trigger] straight(
            rows,
            size,
            stone,
            row,
            col,
            down,
            right,
            len,
        ) {
        let (row, col, down, right) = choose|row: int, col: int, down: int, right: int|
            -1 <= down <= 1 && -1 <= right <= 1 && !(down == 0 && right == 0)
                && #[trigger] straight(rows, size, stone, row, col, down, right, len);
        lemma_straight_is_line(rows, size, stone, row, col, down, right, len);
    }
}

/// A longer run of stones holds a shorter one: whoever has more stones in a row than are needed
/// has won as well.
pub proof fn law_longer_lines_count(
    rows: Seq<Seq<u8>>,
    size: int,
    stone: u8,
    len: int,
    longer: int,
)
    requires
        len <= longer,
        has_line(rows, size, stone, longer),
    ensures
        has_line(rows, size, stone, len),
{
    let (row, col, dir) = choose|row: int, col: int, dir: int|
        0 <= dir < 4 && #[trigger] run(rows, size, stone, row, col, dir, longer);
    assert(run(rows, size, stone, row, col, dir, len));
}

} // verus!
