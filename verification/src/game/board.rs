//! The N-in-a-row board: placing stones, deciding the game, undoing a move and encoding a
//! position for a network.

use vstd::prelude::*;
use vstd::arithmetic::div_mod::lemma_fundamental_div_mod_converse;
use crate::game::lines::{
    beside, count, has_empty, has_line, holds, lemma_count_total, lemma_count_with_cell,
    lemma_new_line_passes_through, lemma_other_lines_unchanged, lemma_walk_decides, line_through,
    run_around,
};
use crate::grid::{has_shape, uniform, with_cell, CellGrid};

verus! {

/// The colour of a player.
#[derive(Debug, Clone, Copy, PartialEq, Eq, Structural)]
pub enum Color {
    Black,
    White,
}

impl Default for Color {
    fn default() -> (color: Color)
        ensures
            color == Color::Black,
    {
        Color::Black
    }
}

impl Color {
    /// The other colour.
    pub open spec fn other(self) -> Color {
        match self {
            Color::Black => Color::White,
            Color::White => Color::Black,
        }
    }

    /// The number that stands for a stone of this colour in a cell.
    pub open spec fn stone(self) -> u8 {
        match self {
            Color::Black => 1,
            Color::White => 2,
        }
    }

    /// The colour that moves after this one.
    pub fn opponent(self) -> (color: Color)
        ensures
            color == self.other(),
    {
        match self {
            Color::Black => Color::White,
            Color::White => Color::Black,
        }
    }
}

/// What a move overwrites besides the cell it fills; enough to take the move back.
#[derive(Clone, Copy)]
pub struct BoardSnapshot {
    pub prev_last_move: Option<(usize, usize)>,
    pub prev_player: Color,
    pub prev_game_over: bool,
    pub prev_winner: Option<Color>,
}

/// A board position as a mathematical value. A cell is 0 when empty, 1 for a black stone
/// and 2 for a white stone.
#[verifier::ext_equal]
pub struct BoardState {
    pub size: int,
    pub rows: Seq<Seq<u8>>,
    pub player: Color,
    pub last_move: Option<(usize, usize)>,
    pub steps: int,
    pub over: bool,
    pub winner: Option<Color>,
    pub win_length: int,
}

/// A cell as the player `me` sees it: 0 for empty, 1 for an own stone, 2 for a stone of
/// the opponent.
pub open spec fn relative(cell: u8, me: Color) -> i32 {
    if cell == me.stone() {
        1
    } else if cell == me.other().stone() {
        2
    } else {
        0
    }
}

/// The integers from 0 up to but not including `bound`.
pub open spec fn counting(bound: nat) -> Seq<int> {
    Seq::new(bound, |i: int| i)
}

/// The indices below `bound` of the empty cells, in increasing order; index `i` is the
/// cell in row `i / size` and column `i % size`.
pub open spec fn empty_cells(rows: Seq<Seq<u8>>, size: int, bound: nat) -> Seq<int> {
    counting(bound).filter(|i: int| rows[i / size][i % size] == 0)
}

/// The rows and columns of the cells with the given indices.
pub open spec fn positions(cells: Seq<int>, size: int) -> Seq<(usize, usize)> {
    cells.map_values(|i: int| ((i / size) as usize, (i % size) as usize))
}

/// Cell indices as machine integers.
pub open spec fn indices(cells: Seq<int>) -> Seq<usize> {
    cells.map_values(|i: int| i as usize)
}

/// The cell in row `row` and column `col` has the index `row * size + col`.
pub proof fn lemma_index_in_grid(size: int, row: int, col: int)
    requires
        0 <= row < size,
        0 <= col < size,
    ensures
        0 <= row * size + col < size * size,
        row * size >= 0,
        (row * size + col) / size == row,
        (row * size + col) % size == col,
{
    assert(row * size >= 0 && row * size + size <= size * size) by (nonlinear_arith)
        requires
            0 <= row < size,
    ;
    lemma_fundamental_div_mod_converse(row * size + col, size, row, col);
}

proof fn lemma_no_empty_cells(rows: Seq<Seq<u8>>, size: int)
    ensures
        empty_cells(rows, size, 0) =~= Seq::<int>::empty(),
        0 * size == 0,
{
    reveal(Seq::filter);
}

proof fn lemma_next_cell(rows: Seq<Seq<u8>>, size: int, row: int, col: int)
    requires
        0 <= row < size,
        0 <= col < size,
    ensures
        ({
            let k = row * size + col;
            &&& 0 <= k < size * size
            &&& row * size >= 0
            &&& k / size == row
            &&& k % size == col
            &&& empty_cells(rows, size, (k + 1) as nat) == (if rows[row][col] == 0 {
                empty_cells(rows, size, k as nat).push(k)
            } else {
                empty_cells(rows, size, k as nat)
            })
        }),
{
    lemma_index_in_grid(size, row, col);
    let k = row * size + col;
    let long = counting((k + 1) as nat);
    assert(long.drop_last() =~= counting(k as nat));
    reveal(Seq::filter);
}

impl BoardState {
    /// The empty board with `size` rows and columns, Black to move.
    pub open spec fn initial(size: int, win_length: int) -> BoardState {
        BoardState {
            size,
            rows: uniform(size as nat, size as nat, 0u8),
            player: Color::Black,
            last_move: None,
            steps: 0,
            over: false,
            winner: None,
            win_length,
        }
    }

    /// The grid is square, and the rules fit on it.
    pub open spec fn shaped(self) -> bool {
        &&& 2 <= self.win_length <= self.size
        &&& self.size * self.size <= isize::MAX
        &&& has_shape(self.rows, self.size, self.size)
    }

    /// (`row`, `col`) is a cell of the board.
    pub open spec fn on_board(self, row: int, col: int) -> bool {
        0 <= row < self.size && 0 <= col < self.size
    }

    /// The player to move may fill (`row`, `col`).
    pub open spec fn legal(self, row: int, col: int) -> bool {
        &&& !self.over
        &&& self.on_board(row, col)
        &&& self.rows[row][col] == 0
    }

    /// The cells after the player to move fills (`row`, `col`).
    pub open spec fn placed(self, row: int, col: int) -> Seq<Seq<u8>> {
        with_cell(self.rows, row, col, self.player.stone())
    }

    /// The stone put on (`row`, `col`) completes a line.
    pub open spec fn completes_line(self, row: int, col: int) -> bool {
        line_through(
            self.placed(row, col),
            self.size,
            self.player.stone(),
            row,
            col,
            self.win_length,
        )
    }

    /// The position after the player to move fills (`row`, `col`): the stone is there, the
    /// other player is to move, and the game is over when the stone completes a line
    /// (the mover wins) or else when the board is full (a draw).
    pub open spec fn after(self, row: int, col: int) -> BoardState {
        let won = self.completes_line(row, col);
        let full = self.steps + 1 >= self.size * self.size;
        BoardState {
            size: self.size,
            rows: self.placed(row, col),
            player: self.player.other(),
            last_move: Some((row as usize, col as usize)),
            steps: self.steps + 1,
            over: won || full || self.over,
            winner: if won {
                Some(self.player)
            } else if full {
                None
            } else {
                self.winner
            },
            win_length: self.win_length,
        }
    }

    /// The position after an attempt to fill (`row`, `col`): an illegal move changes nothing.
    pub open spec fn attempted(self, row: int, col: int) -> BoardState {
        if self.legal(row, col) {
            self.after(row, col)
        } else {
            self
        }
    }

    /// The part of the position that `BoardSnapshot` keeps.
    pub open spec fn kept(self) -> BoardSnapshot {
        BoardSnapshot {
            prev_last_move: self.last_move,
            prev_player: self.player,
            prev_game_over: self.over,
            prev_winner: self.winner,
        }
    }

    /// The position after the move at (`row`, `col`) is taken back with `snapshot`.
    pub open spec fn undone(self, row: int, col: int, snapshot: BoardSnapshot) -> BoardState {
        BoardState {
            size: self.size,
            rows: with_cell(self.rows, row, col, 0u8),
            player: snapshot.prev_player,
            last_move: snapshot.prev_last_move,
            steps: self.steps - 1,
            over: snapshot.prev_game_over,
            winner: snapshot.prev_winner,
            win_length: self.win_length,
        }
    }

    /// The indices of the cells that may be filled, in increasing order.
    pub open spec fn open_cells(self) -> Seq<int> {
        if self.over {
            Seq::empty()
        } else {
            empty_cells(self.rows, self.size, (self.size * self.size) as nat)
        }
    }

    /// The rows and columns of `open_cells`.
    pub open spec fn open_positions(self) -> Seq<(usize, usize)> {
        positions(self.open_cells(), self.size)
    }

    /// `open_cells` as machine integers.
    pub open spec fn open_actions(self) -> Seq<usize> {
        indices(self.open_cells())
    }

    /// The position as the player to move sees it, row after row.
    pub open spec fn encoding(self) -> Seq<i32> {
        Seq::new(
            (self.size * self.size) as nat,
            |i: int| relative(self.rows[i / self.size][i % self.size], self.player),
        )
    }

    /// What holds of every position that play can reach: cells are empty or hold one of
    /// the two stones, the players have moved in turn starting with Black, a player has
    /// won exactly when a line of that player's stones stands on the board, only the player
    /// who moved last can have won, and the game is over exactly when a player has won or
    /// the board is full.
    pub open spec fn consistent(self) -> bool {
        &&& self.shaped()
        &&& forall|r: int, c: int| self.on_board(r, c) ==> #[trigger] self.rows[r][c] <= 2
        &&& self.steps == count(self.rows, 1) + count(self.rows, 2)
        &&& count(self.rows, 1) - count(self.rows, 2) == (if self.player == Color::Black {
            0int
        } else {
            1int
        })
        &&& forall|color: Color|
            (self.winner == Some(color)) <==> #[trigger] has_line(
                self.rows,
                self.size,
                color.stone(),
                self.win_length,
            )
        &&& self.winner is Some ==> self.winner == Some(self.player.other())
        &&& self.over <==> (self.winner is Some || self.steps == self.size * self.size)
        &&& match self.last_move {
            None => self.steps == 0,
            Some((r, c)) => self.on_board(r as int, c as int) && self.rows[r as int][c as int] != 0,
        }
    }
}

/// A legal move leads from a consistent position to a consistent position.
pub proof fn law_play_keeps_consistent(state: BoardState, row: int, col: int)
    requires
        state.consistent(),
        state.legal(row, col),
    ensures
        state.after(row, col).consistent(),
{
    let next = state.after(row, col);
    let stone = state.player.stone();
    let other = state.player.other().stone();
    assert(has_shape(next.rows, state.size, state.size));
    lemma_count_with_cell(state.rows, row, col, stone, 1);
    lemma_count_with_cell(state.rows, row, col, stone, 2);
    lemma_count_total(state.rows, state.size, state.size);
    assert(state.rows[row][col] == 0);
    assert(has_empty(state.rows));
    assert(state.size <= state.size * state.size) by (nonlinear_arith)
        requires
            state.size >= 1,
    ;
    assert forall|r: int, c: int| next.on_board(r, c) implies #[trigger] next.rows[r][c] <= 2 by {
        assert(state.rows[r][c] <= 2);
    }
    assert(!has_line(state.rows, state.size, state.player.stone(), state.win_length));
    assert(!has_line(state.rows, state.size, state.player.other().stone(), state.win_length));
    lemma_new_line_passes_through(state.rows, state.size, stone, row, col, state.win_length);
    lemma_other_lines_unchanged(state.rows, state.size, stone, other, row, col, state.win_length);
    assert forall|color: Color|
        (next.winner == Some(color)) <==> #[trigger] has_line(
            next.rows,
            next.size,
            color.stone(),
            next.win_length,
        ) by {
        if color != state.player {
            assert(color == state.player.other());
        }
    }
}

/// A board on which a game is played.
pub struct Board {
    /// The number of rows and of columns.
    pub board_size: usize,
    /// The cells.
    pub cells: CellGrid,
    /// The player to move.
    pub current_player: Color,
    /// The cell filled last.
    pub last_move: Option<(usize, usize)>,
    /// The number of stones placed.
    pub step_count: usize,
    pub game_over: bool,
    pub winner: Option<Color>,
    /// How many stones in a row win.
    pub win_length: usize,
    /// The shape of an encoding: the number of cells.
    pub encode_shape_storage: [usize; 1],
}

impl View for Board {
    type V = BoardState;

    open spec fn view(&self) -> BoardState {
        BoardState {
            size: self.board_size as int,
            rows: self.cells@,
            player: self.current_player,
            last_move: self.last_move,
            steps: self.step_count as int,
            over: self.game_over,
            winner: self.winner,
            win_length: self.win_length as int,
        }
    }
}

impl Clone for Board {
    fn clone(&self) -> (board: Board)
        ensures
            board@ == self@,
            self.wf() ==> board.wf(),
    {
        Board {
            board_size: self.board_size,
            cells: self.cells.duplicate(),
            current_player: self.current_player,
            last_move: self.last_move,
            step_count: self.step_count,
            game_over: self.game_over,
            winner: self.winner,
            win_length: self.win_length,
            encode_shape_storage: self.encode_shape_storage,
        }
    }
}

impl Board {
    /// The edge length of a board made by `new`.
    pub const DEFAULT_BOARD_SIZE: usize = 6;

    /// The winning length of a board made by `new`.
    pub const DEFAULT_WIN_LENGTH: usize = 4;

    /// The board's parts fit together.
    pub open spec fn wf(&self) -> bool {
        &&& self@.shaped()
        &&& self.encode_shape_storage@ == seq![(self.board_size * self.board_size) as usize]
    }

    /// An empty board of the default size with the default winning length.
    pub fn new() -> (board: Board)
        ensures
            board.wf(),
            board@ == BoardState::initial(
                Self::DEFAULT_BOARD_SIZE as int,
                Self::DEFAULT_WIN_LENGTH as int,
            ),
    {
        Self::with_size(Self::DEFAULT_BOARD_SIZE, Self::DEFAULT_WIN_LENGTH)
    }

    /// An empty board of the default size on which `n` stones in a row win.
    pub fn with_win_length(n: usize) -> (board: Board)
        requires
            2 <= n <= Self::DEFAULT_BOARD_SIZE,
        ensures
            board.wf(),
            board@ == BoardState::initial(Self::DEFAULT_BOARD_SIZE as int, n as int),
    {
        Self::with_size(Self::DEFAULT_BOARD_SIZE, n)
    }

    /// An empty board with `board_size` rows and columns on which `win_length` stones in a
    /// row win.
    pub fn with_size(board_size: usize, win_length: usize) -> (board: Board)
        requires
            2 <= win_length <= board_size,
            board_size * board_size <= isize::MAX,
        ensures
            board.wf(),
            board@ == BoardState::initial(board_size as int, win_length as int),
    {
        let board = Board {
            board_size,
            cells: CellGrid::zeros(board_size),
            current_player: Color::Black,
            last_move: None,
            step_count: 0,
            game_over: false,
            winner: None,
            win_length,
            encode_shape_storage: [board_size * board_size],
        };
        assert(board.encode_shape_storage@ =~= seq![(board_size * board_size) as usize]);
        board
    }

    /// The number of cells.
    pub fn num_positions(&self) -> (n: usize)
        requires
            self.wf(),
        ensures
            n == self.board_size * self.board_size,
    {
        self.board_size * self.board_size
    }

    /// The length of an encoding: one number for each cell.
    pub fn encode_len(&self) -> (n: usize)
        requires
            self.wf(),
        ensures
            n == self@.encoding().len(),
            n == self.board_size * self.board_size,
    {
        self.num_positions()
    }

    /// The cell at (`row`, `col`).
    pub fn get(&self, row: usize, col: usize) -> (cell: u8)
        requires
            self.wf(),
            self@.on_board(row as int, col as int),
        ensures
            cell == self@.rows[row as int][col as int],
    {
        self.cells.at(row, col)
    }

    /// No stone lies on (`row`, `col`).
    pub fn is_empty(&self, row: usize, col: usize) -> (empty: bool)
        requires
            self.wf(),
            self@.on_board(row as int, col as int),
        ensures
            empty == (self@.rows[row as int][col as int] == 0),
    {
        self.cells.at(row, col) == 0
    }

    /// The index of the cell at (`row`, `col`), counted row by row.
    pub fn pos_to_idx(&self, row: usize, col: usize) -> (idx: usize)
        requires
            row * self.board_size + col <= usize::MAX,
        ensures
            idx == row * self.board_size + col,
    {
        proof {
            assert(row * self.board_size >= 0) by (nonlinear_arith);
        }
        row * self.board_size + col
    }

    /// The row and column of the cell with index `idx`.
    pub fn idx_to_pos(&self, idx: usize) -> (pos: (usize, usize))
        requires
            self.board_size > 0,
        ensures
            pos.0 == idx as int / self.board_size as int,
            pos.1 == idx as int % self.board_size as int,
    {
        (idx / self.board_size, idx % self.board_size)
    }

    /// Counts the stones equal to the one at (`row`, `col`) that follow it without a gap in
    /// direction `dir`, or against it, up to `limit`.
    fn walk(&self, row: usize, col: usize, dir: usize, forward: bool, limit: usize) -> (n: usize)
        requires
            self.wf(),
            self@.on_board(row as int, col as int),
            dir < 4,
            limit < self.board_size,
        ensures
            n <= limit,
            forall|i: int|
                1 <= i <= n ==> holds(
                    self@.rows,
                    self@.size,
                    self@.rows[row as int][col as int],
                    #[trigger] beside(row as int, col as int, dir as int, forward, i),
                ),
            n == limit || !holds(
                self@.rows,
                self@.size,
                self@.rows[row as int][col as int],
                beside(row as int, col as int, dir as int, forward, n + 1),
            ),
    {
        let stone = self.cells.at(row, col);
        proof {
            assert(self.board_size <= self.board_size * self.board_size) by (nonlinear_arith)
                requires
                    self.board_size >= 1,
            ;
        }
        let size: isize = self.board_size as isize;
        let (dr, dc): (isize, isize) = if dir == 0 {
            (0, 1)
        } else if dir == 1 {
            (1, 0)
        } else if dir == 2 {
            (1, 1)
        } else {
            (1, -1)
        };
        let (dr, dc): (isize, isize) = if forward {
            (dr, dc)
        } else {
            (-dr, -dc)
        };
        let mut nr: isize = row as isize;
        let mut nc: isize = col as isize;
        let mut n: usize = 0;
        while n < limit
            invariant
                self.wf(),
                size == self@.size,
                stone == self@.rows[row as int][col as int],
                n <= limit < size,
                0 <= nr < size,
                0 <= nc < size,
                -1 <= dr <= 1,
                -1 <= dc <= 1,
                (nr as int, nc as int) == beside(row as int, col as int, dir as int, forward, n as int),
                (nr + dr, nc + dc) == beside(row as int, col as int, dir as int, forward, n + 1),
                forall|i: int|
                    1 <= i <= n ==> holds(
                        self@.rows,
                        self@.size,
                        stone,
                        #[trigger] beside(row as int, col as int, dir as int, forward, i),
                    ),
            decreases limit - n,
        {
            let tr: isize = nr + dr;
            let tc: isize = nc + dc;
            if tr < 0 || tr >= size || tc < 0 || tc >= size {
                return n;
            }
            if self.cells.at(tr as usize, tc as usize) != stone {
                return n;
            }
            nr = tr;
            nc = tc;
            n = n + 1;
        }
        n
    }

    /// The stone at (`row`, `col`) is part of a line of at least the winning length.
    pub fn check_win(&self, row: usize, col: usize) -> (won: bool)
        requires
            self.wf(),
            self@.on_board(row as int, col as int),
        ensures
            won == (self@.rows[row as int][col as int] != 0 && line_through(
                self@.rows,
                self@.size,
                self@.rows[row as int][col as int],
                row as int,
                col as int,
                self@.win_length,
            )),
    {
        let stone = self.cells.at(row, col);
        if stone == 0 {
            return false;
        }
        let limit: usize = self.win_length - 1;
        let ghost rows = self@.rows;
        let ghost size = self@.size;
        let ghost len = self@.win_length;
        let mut dir: usize = 0;
        while dir < 4
            invariant
                self.wf(),
                self@.on_board(row as int, col as int),
                rows == self@.rows,
                size == self@.size,
                len == self@.win_length,
                stone == rows[row as int][col as int],
                stone != 0,
                limit == self.win_length - 1,
                dir <= 4,
                forall|d: int, back: int|
                    0 <= d < dir && 0 <= back < len ==> !#[trigger] run_around(
                        rows,
                        size,
                        stone,
                        row as int,
                        col as int,
                        d,
                        len,
                        back,
                    ),
            decreases 4 - dir,
        {
            let ahead = self.walk(row, col, dir, true, limit);
            let behind = self.walk(row, col, dir, false, limit);
            proof {
                self.lemma_sizes_fit();
                lemma_walk_decides(
                    rows,
                    size,
                    stone,
                    row as int,
                    col as int,
                    dir as int,
                    len,
                    ahead as int,
                    behind as int,
                );
            }
            if 1 + ahead + behind >= self.win_length {
                return true;
            }
            dir = dir + 1;
        }
        false
    }

    /// The cells that may be filled, row by row.
    pub fn legal_moves(&self) -> (moves: Vec<(usize, usize)>)
        requires
            self.wf(),
        ensures
            moves@ == self@.open_positions(),
    {
        let mut moves: Vec<(usize, usize)> = Vec::with_capacity(self.num_positions());
        self.fill_legal_moves(&mut moves);
        moves
    }

    /// Replaces the contents of `buffer` with the cells that may be filled, row by row.
    pub fn fill_legal_moves(&self, buffer: &mut Vec<(usize, usize)>)
        requires
            self.wf(),
        ensures
            final(buffer)@ == self@.open_positions(),
    {
        buffer.clear();
        if self.game_over {
            assert(buffer@ =~= self@.open_positions());
            return;
        }
        let ghost rows = self@.rows;
        let ghost size = self@.size;
        proof {
            lemma_no_empty_cells(rows, size);
        }
        for r in 0..self.board_size
            invariant
                self.wf(),
                rows == self@.rows,
                size == self@.size,
                buffer@ == positions(empty_cells(rows, size, (r * size) as nat), size),
        {
            for c in 0..self.board_size
                invariant
                    self.wf(),
                    rows == self@.rows,
                    size == self@.size,
                    0 <= r < size,
                    buffer@ == positions(empty_cells(rows, size, (r * size + c) as nat), size),
            {
                proof {
                    lemma_next_cell(rows, size, r as int, c as int);
                }
                if self.cells.at(r, c) == 0 {
                    buffer.push((r, c));
                }
                assert(buffer@ =~= positions(empty_cells(rows, size, (r * size + c + 1) as nat), size));
            }
            assert((r + 1) * size == r * size + size) by (nonlinear_arith);
        }
    }

    /// The indices of the cells that may be filled, in increasing order.
    pub fn legal_actions(&self) -> (moves: Vec<usize>)
        requires
            self.wf(),
        ensures
            moves@ == self@.open_actions(),
    {
        let mut moves: Vec<usize> = Vec::with_capacity(self.num_positions());
        if self.game_over {
            assert(moves@ =~= self@.open_actions());
            return moves;
        }
        let ghost rows = self@.rows;
        let ghost size = self@.size;
        proof {
            lemma_no_empty_cells(rows, size);
            assert(moves@ =~= indices(empty_cells(rows, size, 0)));
        }
        for r in 0..self.board_size
            invariant
                self.wf(),
                rows == self@.rows,
                size == self@.size,
                moves@ == indices(empty_cells(rows, size, (r * size) as nat)),
        {
            for c in 0..self.board_size
                invariant
                    self.wf(),
                    rows == self@.rows,
                    size == self@.size,
                    0 <= r < size,
                    moves@ == indices(empty_cells(rows, size, (r * size + c) as nat)),
            {
                proof {
                    lemma_next_cell(rows, size, r as int, c as int);
                }
                if self.cells.at(r, c) == 0 {
                    moves.push(self.pos_to_idx(r, c));
                }
                assert(moves@ =~= indices(empty_cells(rows, size, (r * size + c + 1) as nat)));
            }
            assert((r + 1) * size == r * size + size) by (nonlinear_arith);
        }
        moves
    }

    /// Lets the player to move fill (`row`, `col`) and tells whether that was legal. An
    /// illegal move leaves the board as it was.
    pub fn play(&mut self, row: usize, col: usize) -> (played: bool)
        requires
            old(self).wf(),
            old(self).step_count < usize::MAX,
        ensures
            final(self).wf(),
            played == old(self)@.legal(row as int, col as int),
            final(self)@ == old(self)@.attempted(row as int, col as int),
            old(self)@.consistent() ==> final(self)@.consistent(),
    {
        if self.game_over || row >= self.board_size || col >= self.board_size {
            return false;
        }
        if self.cells.at(row, col) != 0 {
            return false;
        }
        let stone: u8 = match self.current_player {
            Color::Black => 1,
            Color::White => 2,
        };
        self.cells.put(row, col, stone);
        self.last_move = Some((row, col));
        self.step_count = self.step_count + 1;
        if self.check_win(row, col) {
            self.game_over = true;
            self.winner = Some(self.current_player);
        } else if self.step_count >= self.num_positions() {
            self.game_over = true;
            self.winner = None;
        }
        self.current_player = self.current_player.opponent();
        proof {
            assert(self@ =~= old(self)@.after(row as int, col as int));
            if old(self)@.consistent() {
                law_play_keeps_consistent(old(self)@, row as int, col as int);
            }
        }
        true
    }

    /// `play` on the cell with index `idx`.
    pub fn play_idx(&mut self, idx: usize) -> (played: bool)
        requires
            old(self).wf(),
            old(self).step_count < usize::MAX,
        ensures
            final(self).wf(),
            played == old(self)@.legal(
                idx as int / old(self)@.size,
                idx as int % old(self)@.size,
            ),
            final(self)@ == old(self)@.attempted(
                idx as int / old(self)@.size,
                idx as int % old(self)@.size,
            ),
            old(self)@.consistent() ==> final(self)@.consistent(),
    {
        let (r, c) = self.idx_to_pos(idx);
        self.play(r, c)
    }

    /// Takes back the move at (`move_row`, `move_col`), with the snapshot made before it.
    pub fn undo(&mut self, move_row: usize, move_col: usize, snapshot: &BoardSnapshot)
        requires
            old(self).wf(),
            old(self)@.on_board(move_row as int, move_col as int),
            old(self).step_count > 0,
        ensures
            final(self).wf(),
            final(self)@ == old(self)@.undone(move_row as int, move_col as int, *snapshot),
    {
        self.cells.put(move_row, move_col, 0);
        self.last_move = snapshot.prev_last_move;
        self.current_player = snapshot.prev_player;
        self.step_count = self.step_count - 1;
        self.game_over = snapshot.prev_game_over;
        self.winner = snapshot.prev_winner;
    }

    /// What a later `undo` needs to restore the present position.
    pub fn snapshot(&self) -> (snapshot: BoardSnapshot)
        ensures
            snapshot == self@.kept(),
    {
        BoardSnapshot {
            prev_last_move: self.last_move,
            prev_player: self.current_player,
            prev_game_over: self.game_over,
            prev_winner: self.winner,
        }
    }

    /// Writes the encoding of the position to the front of `data`.
    pub fn encode_into(&self, data: &mut [i32])
        requires
            self.wf(),
            old(data)@.len() >= self@.size * self@.size,
        ensures
            final(data)@.len() == old(data)@.len(),
            forall|i: int|
                0 <= i < final(data)@.len() ==> #[trigger] final(data)@[i] == (if i
                    < self@.encoding().len() {
                    self@.encoding()[i]
                } else {
                    old(data)@[i]
                }),
    {
        let (me, opp): (u8, u8) = match self.current_player {
            Color::Black => (1, 2),
            Color::White => (2, 1),
        };
        let ghost size = self@.size;
        let ghost before = data@;
        assert(0 * size == 0);
        for r in 0..self.board_size
            invariant
                self.wf(),
                size == self@.size,
                me == self.current_player.stone(),
                opp == self.current_player.other().stone(),
                data@.len() == before.len(),
                before.len() >= size * size,
                forall|i: int|
                    0 <= i < data@.len() ==> #[trigger] data@[i] == (if i < r * size {
                        self@.encoding()[i]
                    } else {
                        before[i]
                    }),
        {
            for c in 0..self.board_size
                invariant
                    self.wf(),
                    size == self@.size,
                    0 <= r < size,
                    me == self.current_player.stone(),
                    opp == self.current_player.other().stone(),
                    data@.len() == before.len(),
                    before.len() >= size * size,
                    forall|i: int|
                        0 <= i < data@.len() ==> #[trigger] data@[i] == (if i < r * size + c {
                            self@.encoding()[i]
                        } else {
                            before[i]
                        }),
            {
                proof {
                    lemma_index_in_grid(size, r as int, c as int);
                }
                let idx: usize = r * self.board_size + c;
                let cell = self.cells.at(r, c);
                let value: i32 = if cell == me {
                    1
                } else if cell == opp {
                    2
                } else {
                    0
                };
                data[idx] = value;
            }
            assert((r + 1) * size == r * size + size) by (nonlinear_arith);
        }
    }

    /// The encoding of the position.
    pub fn encode_state(&self) -> (data: Vec<i32>)
        requires
            self.wf(),
        ensures
            data@ == self@.encoding(),
    {
        let mut data: Vec<i32> = vec![0i32; self.encode_len()];
        self.encode_into(data.as_mut_slice());
        assert(data@ =~= self@.encoding());
        data
    }

    proof fn lemma_sizes_fit(&self)
        requires
            self@.shaped(),
        ensures
            2 * self.board_size <= isize::MAX,
    {
        assert(2 * self.board_size <= self.board_size * self.board_size) by (nonlinear_arith)
            requires
                self.board_size >= 2,
        ;
    }
}

} // verus!
