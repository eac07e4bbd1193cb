//! The analysis screen: stones are placed freely, and each position is searched.

use vstd::prelude::*;
use vstd::string::StringExecFns;
use crate::game::board::{lemma_index_in_grid, Board, BoardState, Color};
use crate::game::draw::{board_marks, drawable, needed, Area, Look, Mark, Symbol};
use crate::game::input::{law_cursor_stays_on_board, move_cursor, moved, Effect, Key};
use crate::game::laws::{law_game_ends, law_initial_is_consistent};
use crate::mcts::game::Game;
use crate::mcts::read::{sum_of, sum_visits, SearchResult};
use crate::number::Score;
use crate::text::{
    all_digits, bracketed, decimal, parse_digits, push_bracketed, push_decimal, value_of,
};

verus! {

/// The numbers of the last search, to be shown.
pub struct AnalyzeResultData<V> {
    pub nn_value: V,
    pub nn_prior: Vec<V>,
    pub mcts_q: Vec<V>,
    pub mcts_visits: Vec<u32>,
    pub mcts_policy: Vec<V>,
}

/// The field in which a number of simulations is typed.
pub struct SimInputOverlay {
    pub input_buffer: Vec<char>,
    pub active: bool,
}

impl SimInputOverlay {
    /// What has been typed is a number.
    pub open spec fn wf(&self) -> bool {
        all_digits(self.input_buffer@)
    }

    /// A closed field.
    pub fn new() -> (overlay: SimInputOverlay)
        ensures
            overlay.wf(),
            !overlay.active,
            overlay.input_buffer@ == Seq::<char>::empty(),
    {
        SimInputOverlay { input_buffer: Vec::new(), active: false }
    }

    /// Opens the field, empty.
    pub fn activate(&mut self)
        ensures
            final(self).wf(),
            final(self).active,
            final(self).input_buffer@ == Seq::<char>::empty(),
    {
        self.active = true;
        self.input_buffer.clear();
    }

    /// Closes the field and empties it.
    pub fn deactivate(&mut self)
        ensures
            final(self).wf(),
            !final(self).active,
            final(self).input_buffer@ == Seq::<char>::empty(),
    {
        self.active = false;
        self.input_buffer.clear();
    }
}

/// The analysis screen as a mathematical value.
#[verifier::ext_equal]
pub struct AnalyzeView {
    pub board: BoardState,
    pub row: int,
    pub col: int,
    pub message: Seq<char>,
    pub computing: bool,
    pub placed: bool,
    pub simulations: int,
    pub history: Seq<BoardState>,
    pub typing: bool,
    pub typed: Seq<char>,
}

/// The analysis screen.
pub struct AnalyzeState<V> {
    pub board: Board,
    pub cursor_row: usize,
    pub cursor_col: usize,
    pub message: String,
    pub current_result: Option<AnalyzeResultData<V>>,
    /// A search is under way.
    pub computing: bool,
    /// The search under way follows a move.
    pub placed: bool,
    pub num_simulations: usize,
    /// The boards before each move, to take moves back.
    pub board_history: Vec<Board>,
    pub overlay: SimInputOverlay,
}

impl<V> View for AnalyzeState<V> {
    type V = AnalyzeView;

    open spec fn view(&self) -> AnalyzeView {
        AnalyzeView {
            board: self.board@,
            row: self.cursor_row as int,
            col: self.cursor_col as int,
            message: self.message@,
            computing: self.computing,
            placed: self.placed,
            simulations: self.num_simulations as int,
            history: self.board_history@.map_values(|board: Board| board@),
            typing: self.overlay.active,
            typed: self.overlay.input_buffer@,
        }
    }
}

/// What the screen says of a finished game.
pub open spec fn ending(board: BoardState) -> Seq<char> {
    (match board.winner {
        Some(Color::Black) => "黑子 ●"@,
        Some(Color::White) => "白子 ○"@,
        None => "平局"@,
    }) + " 获胜！按 Q 退出"@
}

impl AnalyzeView {
    /// The screen with another message.
    pub open spec fn saying(self, message: Seq<char>) -> AnalyzeView {
        AnalyzeView { message, ..self }
    }

    /// A search starts.
    pub open spec fn searching(self, placed: bool) -> AnalyzeView {
        AnalyzeView { computing: true, placed, ..self }
    }

    /// The field for the number of simulations is closed.
    pub open spec fn closed(self) -> AnalyzeView {
        AnalyzeView { typing: false, typed: Seq::empty(), ..self }
    }

    /// The field is open: digits are typed, Backspace removes the last one, Esc closes the
    /// field, and Enter closes it and takes the number over when it is positive and fits.
    pub open spec fn type_key(self, key: Key) -> AnalyzeView {
        match key {
            Key::Enter => {
                let n = value_of(self.typed);
                if self.typed.len() > 0 && 0 < n <= usize::MAX {
                    AnalyzeView {
                        simulations: n,
                        message: "模拟次数已设置为 "@ + decimal(n as nat),
                        ..self
                    }.closed()
                } else {
                    self.closed()
                }
            },
            Key::Esc => self.closed(),
            Key::Backspace => if self.typed.len() > 0 {
                AnalyzeView { typed: self.typed.drop_last(), ..self }
            } else {
                self
            },
            Key::Char(c) => if '0' <= c <= '9' {
                AnalyzeView { typed: self.typed.push(c), ..self }
            } else {
                self
            },
            _ => self,
        }
    }

    /// A stone is placed at the cursor, when that is legal.
    pub open spec fn place(self) -> (AnalyzeView, Effect) {
        if self.board.over {
            (self.saying("游戏已结束，按 Q 退出"@), Effect::Redraw)
        } else if self.board.legal(self.row, self.col) {
            let next = AnalyzeView {
                board: self.board.after(self.row, self.col),
                history: self.history.push(self.board),
                message: "落了 "@ + bracketed(self.row as nat, self.col as nat)
                    + " — MCTS 分析中..."@,
                ..self
            };
            (next.searching(true), Effect::Search)
        } else {
            (self.saying("该位置已有棋子！"@), Effect::Redraw)
        }
    }

    /// The last move is taken back, when there is one.
    pub open spec fn take_back(self) -> (AnalyzeView, Effect) {
        if self.history.len() > 0 {
            let before = AnalyzeView {
                board: self.history.last(),
                history: self.history.drop_last(),
                message: "已悔棋"@,
                ..self
            };
            (before.searching(false), Effect::Search)
        } else {
            (self.saying("无法悔棋（已到棋盘初始状态）"@), Effect::Redraw)
        }
    }

    /// The position is searched again, unless the game is over.
    pub open spec fn refresh(self) -> (AnalyzeView, Effect) {
        if self.board.over {
            (self.saying("游戏已结束，无法分析"@), Effect::Redraw)
        } else {
            (self.saying("MCTS 搜索中..."@).searching(false), Effect::Search)
        }
    }

    /// What a key does.
    pub open spec fn press(self, key: Key) -> (AnalyzeView, Effect) {
        if self.typing {
            (self.type_key(key), Effect::Redraw)
        } else if key == Key::Char('q') || key == Key::Char('Q') {
            (self, Effect::Quit)
        } else if key == Key::Char('f') || key == Key::Char('F') {
            self.refresh()
        } else if key == Key::Char('s') || key == Key::Char('S') {
            (
                AnalyzeView {
                    typing: true,
                    typed: Seq::empty(),
                    message: "请输入模拟次数 (Enter 确认, Esc 取消):"@,
                    ..self
                },
                Effect::Redraw,
            )
        } else if key == Key::Char('u') || key == Key::Char('U') {
            self.take_back()
        } else if key == Key::Char(' ') || key == Key::Enter {
            self.place()
        } else {
            let (row, col) = moved(self.row, self.col, self.board.size, key);
            (AnalyzeView { row, col, ..self }, Effect::Redraw)
        }
    }

    /// The search under way is finished: `summary` is shown, or the ending, when the search
    /// followed the last move of a game.
    pub open spec fn found(self, summary: Seq<char>) -> AnalyzeView {
        AnalyzeView {
            computing: false,
            placed: false,
            message: if self.placed && self.board.over {
                ending(self.board)
            } else {
                summary
            },
            ..self
        }
    }
}

impl<V: Score> AnalyzeState<V> {
    /// The screen's parts fit together: every board is a position that play can reach, all
    /// have the same size, and the cursor is on the board.
    pub open spec fn wf(&self) -> bool {
        &&& self.board.ready()
        &&& self.cursor_row < self.board.board_size
        &&& self.cursor_col < self.board.board_size
        &&& forall|i: int|
            0 <= i < self.board_history@.len() ==> (#[trigger] self.board_history@[i]).ready()
                && self.board_history@[i].board_size == self.board.board_size
        &&& self.overlay.wf()
    }

    /// The screen at the start: an empty board with the cursor in the middle, and a first
    /// search under way.
    pub fn new(num_simulations: usize) -> (state: AnalyzeState<V>)
        ensures
            state.wf(),
            state.current_result is None,
            state@ == (AnalyzeView {
                board: BoardState::initial(6, 4),
                row: 3,
                col: 3,
                message: "分析模式 — 方向键移动, 空格落子, [F] 强制刷新, [S] 修改模拟次数, [U] 悔棋, Q 退出"@,
                computing: true,
                placed: false,
                simulations: num_simulations as int,
                history: Seq::empty(),
                typing: false,
                typed: Seq::empty(),
            }),
    {
        let board = Board::new();
        proof {
            law_initial_is_consistent(6, 4);
        }
        let half: usize = board.board_size / 2;
        let state = AnalyzeState {
            board,
            cursor_row: half,
            cursor_col: half,
            message: "分析模式 — 方向键移动, 空格落子, [F] 强制刷新, [S] 修改模拟次数, [U] 悔棋, Q 退出".to_owned(),
            current_result: None,
            computing: true,
            placed: false,
            num_simulations,
            board_history: Vec::new(),
            overlay: SimInputOverlay::new(),
        };
        assert(state@.history =~= Seq::empty());
        state
    }

    fn type_key(&mut self, key: Key)
        requires
            old(self).wf(),
        ensures
            final(self).wf(),
            final(self)@ == old(self)@.type_key(key),
            final(self).current_result == old(self).current_result,
    {
        match key {
            Key::Enter => {
                match parse_digits(&self.overlay.input_buffer) {
                    Some(n) => {
                        if n > 0 {
                            self.num_simulations = n;
                            let mut message: String = "模拟次数已设置为 ".to_owned();
                            push_decimal(&mut message, n);
                            self.message = message;
                        }
                    },
                    None => {},
                }
                self.overlay.deactivate();
            },
            Key::Esc => {
                self.overlay.deactivate();
            },
            Key::Backspace => {
                let ghost typed = self.overlay.input_buffer@;
                let _ = self.overlay.input_buffer.pop();
                assert(typed.len() > 0 ==> self.overlay.input_buffer@ =~= typed.drop_last());
            },
            Key::Char(c) => {
                if '0' <= c && c <= '9' {
                    self.overlay.input_buffer.push(c);
                }
            },
            _ => {},
        }
    }

    fn place(&mut self) -> (effect: Effect)
        requires
            old(self).wf(),
        ensures
            final(self).wf(),
            (final(self)@, effect) == old(self)@.place(),
            final(self).current_result == old(self).current_result,
    {
        if self.board.game_over {
            self.message = "游戏已结束，按 Q 退出".to_owned();
            return Effect::Redraw;
        }
        proof {
            law_game_ends(self.board@, 0, 0);
        }
        let ghost history = self@.history;
        let before = self.board.clone();
        let row: usize = self.cursor_row;
        let col: usize = self.cursor_col;
        if self.board.play(row, col) {
            self.board_history.push(before);
            let mut message: String = "落了 ".to_owned();
            push_bracketed(&mut message, row, col);
            message.append(" — MCTS 分析中...");
            self.message = message;
            self.computing = true;
            self.placed = true;
            assert(self@.history =~= history.push(old(self)@.board));
            Effect::Search
        } else {
            self.message = "该位置已有棋子！".to_owned();
            Effect::Redraw
        }
    }

    fn take_back(&mut self) -> (effect: Effect)
        requires
            old(self).wf(),
        ensures
            final(self).wf(),
            (final(self)@, effect) == old(self)@.take_back(),
            final(self).current_result == old(self).current_result,
    {
        let ghost history = self@.history;
        match self.board_history.pop() {
            Some(board) => {
                self.board = board;
                self.message = "已悔棋".to_owned();
                self.computing = true;
                self.placed = false;
                assert(self@.history =~= history.drop_last());
                Effect::Search
            },
            None => {
                self.message = "无法悔棋（已到棋盘初始状态）".to_owned();
                Effect::Redraw
            },
        }
    }

    /// Takes a key in and tells what has to be done.
    pub fn handle_key(&mut self, key: Key) -> (effect: Effect)
        requires
            old(self).wf(),
        ensures
            final(self).wf(),
            (final(self)@, effect) == old(self)@.press(key),
            final(self).current_result == old(self).current_result,
    {
        if self.overlay.active {
            self.type_key(key);
            return Effect::Redraw;
        }
        match key {
            Key::Char('q') | Key::Char('Q') => Effect::Quit,
            Key::Char('f') | Key::Char('F') => {
                if self.board.game_over {
                    self.message = "游戏已结束，无法分析".to_owned();
                    return Effect::Redraw;
                }
                self.message = "MCTS 搜索中...".to_owned();
                self.computing = true;
                self.placed = false;
                Effect::Search
            },
            Key::Char('s') | Key::Char('S') => {
                self.overlay.activate();
                self.message = "请输入模拟次数 (Enter 确认, Esc 取消):".to_owned();
                Effect::Redraw
            },
            Key::Char('u') | Key::Char('U') => self.take_back(),
            Key::Char(' ') | Key::Enter => self.place(),
            _ => {
                proof {
                    law_cursor_stays_on_board(
                        self.cursor_row as int,
                        self.cursor_col as int,
                        self.board.board_size as int,
                        key,
                    );
                }
                let (row, col) = move_cursor(
                    self.cursor_row,
                    self.cursor_col,
                    self.board.board_size,
                    key,
                );
                self.cursor_row = row;
                self.cursor_col = col;
                Effect::Redraw
            },
        }
    }

    /// Takes in what the search under way found. `summary` is the line to be shown for it.
    pub fn finish_search(&mut self, result: SearchResult<V>, summary: String)
        requires
            old(self).wf(),
        ensures
            final(self).wf(),
            final(self)@ == old(self)@.found(summary@),
            final(self).current_result == Some(
                (AnalyzeResultData {
                    nn_value: result.root_nn_value,
                    nn_prior: result.root_nn_prior,
                    mcts_q: result.children_q,
                    mcts_visits: result.children_visits,
                    mcts_policy: result.policy,
                }),
            ),
    {
        self.current_result = Some(
            AnalyzeResultData {
                nn_value: result.root_nn_value,
                nn_prior: result.root_nn_prior,
                mcts_q: result.children_q,
                mcts_visits: result.children_visits,
                mcts_policy: result.policy,
            },
        );
        self.message = summary;
        if self.placed && self.board.game_over {
            let mut message: String = match self.board.winner {
                Some(Color::Black) => "黑子 ●".to_owned(),
                Some(Color::White) => "白子 ○".to_owned(),
                None => "平局".to_owned(),
            };
            message.append(" 获胜！按 Q 退出");
            self.message = message;
        }
        self.computing = false;
        self.placed = false;
    }

    /// The line below the board: the field for the number of simulations while it is open,
    /// a notice while a search is under way, and else the message.
    pub fn status_line(&self) -> (line: String)
        requires
            self.wf(),
        ensures
            line@ == (if self@.typing {
                "模拟次数: "@ + self@.typed + "_  (输入数字后按 Enter)"@
            } else if self@.computing {
                "计算中..."@
            } else {
                self@.message
            }),
    {
        if self.overlay.active {
            let mut line: String = "模拟次数: ".to_owned();
            let ghost start = line@;
            for i in 0..self.overlay.input_buffer.len()
                invariant
                    line@ == start + self@.typed.take(i as int),
            {
                line.push(self.overlay.input_buffer[i]);
                assert(line@ =~= start + self@.typed.take(i + 1));
            }
            assert(self@.typed.take(self@.typed.len() as int) =~= self@.typed);
            line.append("_  (输入数字后按 Enter)");
            line
        } else if self.computing {
            "计算中...".to_owned()
        } else {
            self.message.clone()
        }
    }

    /// How many lines the message takes below the board.
    pub fn info_height(&self) -> (lines: u16)
        ensures
            lines == (if self.current_result is Some {
                3int
            } else {
                2int
            }),
    {
        if self.current_result.is_some() {
            3
        } else {
            2
        }
    }

    /// What the last search found for the cell under the cursor, `None` without a search or
    /// while one is under way. Where the search has no number for the cell, it is zero.
    pub fn details(&self) -> (details: Option<CellDetails<V>>)
        requires
            self.wf(),
        ensures
            details is Some <==> !self.computing && self.current_result is Some,
            details is Some ==> {
                let found = self.current_result->0;
                let shown = details->0;
                let idx = self.cursor_row * self.board.board_size + self.cursor_col;
                &&& shown.row == self.cursor_row
                &&& shown.col == self.cursor_col
                &&& shown.empty == (self@.board.rows[self@.row][self@.col] == 0)
                &&& shown.nn_value == found.nn_value
                &&& is_entry(found.nn_prior@, idx, shown.prior)
                &&& is_entry(found.mcts_q@, idx, shown.q)
                &&& is_entry(found.mcts_policy@, idx, shown.policy)
                &&& shown.visits == (if idx < found.mcts_visits@.len() {
                    found.mcts_visits@[idx]
                } else {
                    0
                })
            },
    {
        if self.computing {
            return None;
        }
        match &self.current_result {
            Some(found) => {
                proof {
                    lemma_index_in_grid(self@.board.size, self@.row, self@.col);
                }
                let idx: usize = self.board.pos_to_idx(self.cursor_row, self.cursor_col);
                let visits: u32 = if idx < found.mcts_visits.len() {
                    found.mcts_visits[idx]
                } else {
                    0
                };
                Some(
                    CellDetails {
                        row: self.cursor_row,
                        col: self.cursor_col,
                        empty: self.board.is_empty(self.cursor_row, self.cursor_col),
                        nn_value: found.nn_value,
                        prior: entry(&found.nn_prior, idx),
                        q: entry(&found.mcts_q, idx),
                        policy: entry(&found.mcts_policy, idx),
                        visits,
                    },
                )
            },
            None => None,
        }
    }
}

impl<V: Score> AnalyzeState<V> {
    /// The marks of the board in `area`. Where the board does not fit, a notice says so;
    /// while a search is under way, only the stones are shown. `hot` tells for each cell
    /// whether its background shows how good it is.
    pub fn marks(&self, hot: &Vec<bool>, area: Area) -> (marks: Vec<Mark>)
        requires
            self.wf(),
            self.board.board_size <= 191,
            area.x + area.width <= u16::MAX,
            area.y + area.height <= u16::MAX,
        ensures
            marks@ == (if too_small(area, self@.board.size) {
                seq![Mark { x: area.x, y: area.y, symbol: Symbol::TooSmall }]
            } else {
                (Look {
                    board: self@.board,
                    row: self@.row,
                    col: self@.col,
                    hot: hot@,
                    plain: self@.computing,
                }).marks(area)
            }),
    {
        let size: usize = self.board.board_size;
        if (area.width as usize) < size * 3 + 1 || (area.height as usize) < size + 2 + 2 {
            let mut marks: Vec<Mark> = Vec::new();
            marks.push(Mark { x: area.x, y: area.y, symbol: Symbol::TooSmall });
            assert(marks@ =~= seq![Mark { x: area.x, y: area.y, symbol: Symbol::TooSmall }]);
            return marks;
        }
        assert(drawable(area, size as int));
        board_marks(&self.board, (self.cursor_row, self.cursor_col), hot, self.computing, area)
    }

    /// The place of the details beside the board, where there is room for them: up to 28
    /// columns and 9 rows.
    pub fn details_area(&self, area: Area, top: u16) -> (place: Option<Area>)
        requires
            area.x + self.board.board_size * 3 + 2 <= u16::MAX,
        ensures
            ({
                let left = area.width - needed(self@.board.size).0 - 2;
                if left <= 0 {
                    place is None
                } else {
                    place == Some(
                        (Area {
                            x: (area.x + needed(self@.board.size).0 + 1) as u16,
                            y: top,
                            width: (if left <= 28 {
                                left
                            } else {
                                28
                            }) as u16,
                            height: 9,
                        }),
                    )
                }
            }),
    {
        let board_width: u16 = (self.board.board_size * 3 + 1) as u16;
        let rest: u16 = area.width.saturating_sub(board_width).saturating_sub(2);
        let width: u16 = if rest <= 28 {
            rest
        } else {
            28
        };
        if width > 0 {
            Some(Area { x: area.x + board_width + 1, y: top, width, height: 9 })
        } else {
            None
        }
    }
}

/// The area does not hold the board and two more lines.
pub open spec fn too_small(area: Area, size: int) -> bool {
    area.width < needed(size).0 || area.height < needed(size).1 + 2
}

/// What is shown of the cell under the cursor.
pub struct CellDetails<V> {
    pub row: usize,
    pub col: usize,
    pub empty: bool,
    pub nn_value: V,
    pub prior: V,
    pub q: V,
    pub policy: V,
    pub visits: u32,
}

/// `value` is the entry at `idx`, or zero past the end.
pub open spec fn is_entry<V: Score>(values: Seq<V>, idx: int, value: V) -> bool {
    if idx < values.len() {
        value == values[idx]
    } else {
        V::zero.ensures((), value)
    }
}

fn entry<V: Score>(values: &Vec<V>, idx: usize) -> (value: V)
    ensures
        is_entry(values@, idx as int, value),
{
    if idx < values.len() {
        values[idx]
    } else {
        V::zero()
    }
}

/// The number of simulations to be shown: the sum of the visits, but at least 1.
pub fn shown_simulations(visits: &Vec<u32>) -> (total: u32)
    requires
        sum_of(visits@) <= u32::MAX,
    ensures
        total == (if sum_of(visits@) == 0 {
            1
        } else {
            sum_of(visits@)
        }),
{
    let total: u32 = sum_visits(visits);
    if total == 0 {
        1
    } else {
        total
    }
}

/// Taking a move back restores the board and the history from before the move.
pub proof fn law_take_back_undoes_place(screen: AnalyzeView)
    requires
        !screen.board.over,
        screen.board.legal(screen.row, screen.col),
    ensures
        ({
            let after = screen.place().0.take_back().0;
            after.board == screen.board && after.history == screen.history
        }),
{
    assert(screen.history.push(screen.board).drop_last() =~= screen.history);
}

/// A move is taken back as often as one was placed, and then no more: the history grows by
/// one with each search that follows a move, shrinks by one with each move taken back, and
/// no other key changes it.
pub proof fn law_history_counts_moves(screen: AnalyzeView, key: Key)
    ensures
        ({
            let (after, effect) = screen.press(key);
            let change = after.history.len() - screen.history.len();
            &&& -1 <= change <= 1
            &&& change == 1 <==> effect == Effect::Search && after.placed
            &&& change == -1 ==> effect == Effect::Search && screen.history.len() > 0
            &&& change == 0 ==> after.board == screen.board
        }),
{
}

/// While a number is typed no key leaves the screen, moves the cursor or changes the board.
pub proof fn law_typing_touches_nothing_else(screen: AnalyzeView, key: Key)
    requires
        screen.typing,
    ensures
        ({
            let (after, effect) = screen.press(key);
            &&& effect == Effect::Redraw
            &&& after.board == screen.board
            &&& after.history == screen.history
            &&& after.row == screen.row
            &&& after.col == screen.col
        }),
{
}

} // verus!
