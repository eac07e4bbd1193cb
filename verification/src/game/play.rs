//! The playing screen: a person and the program move in turn.

use vstd::prelude::*;
use vstd::string::StringExecFns;
use crate::game::board::{Board, BoardState, Color};
use crate::game::draw::{board_marks, drawable, Area, Look, Mark};
use crate::game::input::{law_cursor_stays_on_board, move_cursor, moved, Effect, Key};
use crate::game::laws::law_game_ends;
use crate::mcts::game::Game;
use crate::text::{bracketed, push_bracketed};

verus! {

/// How a colour is called on the screen.
pub open spec fn name_of(color: Color) -> Seq<char> {
    match color {
        Color::Black => "黑子 ●"@,
        Color::White => "白子 ○"@,
    }
}

/// How a colour is called on the screen.
pub fn color_name(c: Color) -> (name: &'static str)
    ensures
        name@ == name_of(c),
{
    match c {
        Color::Black => "黑子 ●",
        Color::White => "白子 ○",
    }
}

/// The playing screen as a mathematical value.
#[verifier::ext_equal]
pub struct PlayView {
    pub board: BoardState,
    pub row: int,
    pub col: int,
    pub message: Seq<char>,
    pub player: Color,
}

/// The playing screen.
pub struct GameState {
    pub board: Board,
    pub cursor_row: usize,
    pub cursor_col: usize,
    pub message: String,
    /// The colour of the person.
    pub player_color: Color,
}

impl View for GameState {
    type V = PlayView;

    open spec fn view(&self) -> PlayView {
        PlayView {
            board: self.board@,
            row: self.cursor_row as int,
            col: self.cursor_col as int,
            message: self.message@,
            player: self.player_color,
        }
    }
}

impl PlayView {
    /// What a key does. A finished game waits for `q` alone. While the program is to move,
    /// keys do nothing.
    pub open spec fn press(self, key: Key) -> (PlayView, Effect) {
        if self.board.over {
            (
                self,
                if key == Key::Char('q') {
                    Effect::Quit
                } else {
                    Effect::Redraw
                },
            )
        } else if self.board.player != self.player {
            (self, Effect::Redraw)
        } else if key == Key::Char('q') {
            (self, Effect::Quit)
        } else if key == Key::Char(' ') || key == Key::Enter {
            self.place()
        } else {
            let (row, col) = moved(self.row, self.col, self.board.size, key);
            (PlayView { row, col, ..self }, Effect::Redraw)
        }
    }

    /// The person places a stone at the cursor, when that is legal; unless that ends the
    /// game, the program is to answer.
    pub open spec fn place(self) -> (PlayView, Effect) {
        if self.board.legal(self.row, self.col) {
            let board = self.board.after(self.row, self.col);
            (
                PlayView {
                    board,
                    message: "你落了 "@ + bracketed(self.row as nat, self.col as nat) + "..."@,
                    ..self
                },
                if board.over {
                    Effect::Redraw
                } else {
                    Effect::Search
                },
            )
        } else {
            (PlayView { message: "该位置已有棋子！"@, ..self }, Effect::Redraw)
        }
    }

    /// The program answers with `action`, if that is an action at all.
    pub open spec fn answer(self, action: int) -> PlayView {
        let size = self.board.size;
        if action < size * size {
            PlayView {
                board: self.board.attempted(action / size, action % size),
                message: "AI 落了 "@ + bracketed((action / size) as nat, (action % size) as nat)
                    + " — 你的回合"@,
                ..self
            }
        } else {
            self
        }
    }
}

impl GameState {
    /// The board is a position that play can reach, and the cursor is on it.
    pub open spec fn wf(&self) -> bool {
        &&& self.board.ready()
        &&& self.cursor_row < self.board.board_size
        &&& self.cursor_col < self.board.board_size
    }

    /// The screen at the start: the person has the black stones, and the cursor is in the
    /// middle.
    pub fn new(board: Board) -> (state: GameState)
        requires
            board.ready(),
        ensures
            state.wf(),
            state@ == (PlayView {
                board: board@,
                row: board@.size / 2,
                col: board@.size / 2,
                message: "你的回合 ("@ + name_of(Color::Black)
                    + ") — 箭头键移动, 空格落子, Q 退出"@,
                player: Color::Black,
            }),
    {
        let half: usize = board.board_size / 2;
        let mut message: String = "你的回合 (".to_owned();
        message.append(color_name(Color::Black));
        message.append(") — 箭头键移动, 空格落子, Q 退出");
        GameState {
            board,
            cursor_row: half,
            cursor_col: half,
            message,
            player_color: Color::Black,
        }
    }

    /// Takes a key in and tells what has to be done; `Effect::Search` asks for the move of
    /// the program.
    pub fn handle_key(&mut self, key: Key) -> (effect: Effect)
        requires
            old(self).wf(),
        ensures
            final(self).wf(),
            (final(self)@, effect) == old(self)@.press(key),
    {
        if self.board.game_over {
            return match key {
                Key::Char('q') => Effect::Quit,
                _ => Effect::Redraw,
            };
        }
        if self.board.current_player != self.player_color {
            return Effect::Redraw;
        }
        proof {
            law_game_ends(self.board@, 0, 0);
        }
        match key {
            Key::Char('q') => Effect::Quit,
            Key::Char(' ') | Key::Enter => {
                let row: usize = self.cursor_row;
                let col: usize = self.cursor_col;
                if self.board.play(row, col) {
                    let mut message: String = "你落了 ".to_owned();
                    push_bracketed(&mut message, row, col);
                    message.append("...");
                    self.message = message;
                    if self.board.game_over {
                        Effect::Redraw
                    } else {
                        Effect::Search
                    }
                } else {
                    self.message = "该位置已有棋子！".to_owned();
                    Effect::Redraw
                }
            },
            _ => {
                proof {
                    law_cursor_stays_on_board(
                        self.cursor_row as int,
                        self.cursor_col as int,
                        self.board.board_size as int,
                        key,
                    );
                }
                let (row, col) = move_cursor(
                    self.cursor_row,
                    self.cursor_col,
                    self.board.board_size,
                    key,
                );
                self.cursor_row = row;
                self.cursor_col = col;
                Effect::Redraw
            },
        }
    }

    /// Takes in the move that the program chose.
    pub fn ai_move(&mut self, best_move: usize)
        requires
            old(self).wf(),
        ensures
            final(self).wf(),
            final(self)@ == old(self)@.answer(best_move as int),
    {
        if best_move < self.board.num_positions() {
            proof {
                law_game_ends(self.board@, 0, 0);
            }
            let (r, c) = self.board.idx_to_pos(best_move);
            let _ = self.board.play_idx(best_move);
            let mut message: String = "AI 落了 ".to_owned();
            push_bracketed(&mut message, r, c);
            message.append(" — 你的回合");
            self.message = message;
        }
    }

    /// The marks of the board in `area`.
    pub fn marks(&self, area: Area) -> (marks: Vec<Mark>)
        requires
            self.wf(),
            drawable(area, self.board.board_size as int),
        ensures
            marks@ == (Look {
                board: self@.board,
                row: self@.row,
                col: self@.col,
                hot: Seq::empty(),
                plain: false,
            }).marks(area),
    {
        let hot: Vec<bool> = Vec::new();
        board_marks(&self.board, (self.cursor_row, self.cursor_col), &hot, false, area)
    }
}

/// A move of the person that does not end the game hands the move to the program, and a
/// legal answer that does not end it hands it back.
pub proof fn law_moves_alternate(screen: PlayView, key: Key, action: usize)
    requires
        screen.board.consistent(),
        screen.press(key).1 == Effect::Search,
        Board::actions(screen.press(key).0.board).contains(action),
    ensures
        screen.board.player == screen.player,
        screen.press(key).0.board.player == screen.player.other(),
        screen.press(key).0.answer(action as int).board.player == screen.player,
{
    crate::game::board::law_play_keeps_consistent(screen.board, screen.row, screen.col);
    let mid = screen.press(key).0;
    Board::law_rules(mid.board, action);
}

} // verus!
