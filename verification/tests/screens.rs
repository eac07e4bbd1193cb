use gomoku_ai::game::analyze::{shown_simulations, AnalyzeState, SimInputOverlay};
use gomoku_ai::game::board::{Board, Color};
use gomoku_ai::game::draw::{board_marks, Area, Mark, Symbol};
use gomoku_ai::game::input::{move_cursor, Effect, Key};
use gomoku_ai::game::play::{color_name, GameState};
use gomoku_ai::mcts::read::SearchResult;
use gomoku_ai::number::Score;
use gomoku_ai::text::{parse_digits, push_bracketed, push_decimal};

#[derive(Clone, Copy, Debug, PartialEq)]
struct N(i32);

impl Score for N {
    fn zero() -> Self {
        N(0)
    }
    fn plus(self, other: Self) -> Self {
        N(self.0 + other.0)
    }
    fn mean(self, count: usize) -> Self {
        N(self.0 / count as i32)
    }
    fn negated(self) -> Self {
        N(-self.0)
    }
}

fn result() -> SearchResult<N> {
    let mut r = SearchResult::without_moves(36);
    r.policy[21] = N(70);
    r.children_q[21] = N(30);
    r.children_visits[21] = 12;
    r.root_nn_prior[21] = N(40);
    r.root_nn_value = N(5);
    r
}

fn screen() -> AnalyzeState<N> {
    let mut state = AnalyzeState::new(64);
    assert!(state.computing);
    state.finish_search(result(), "done".to_string());
    state
}

fn press(state: &mut AnalyzeState<N>, keys: &[Key]) {
    for key in keys {
        state.handle_key(*key);
    }
}

#[test]
fn numbers_as_text() {
    for n in [0usize, 7, 10, 99, 100, 12345, usize::MAX] {
        let mut text = String::from("x");
        push_decimal(&mut text, n);
        assert_eq!(text, format!("x{}", n));
        let digits: Vec<char> = text.chars().skip(1).collect();
        assert_eq!(parse_digits(&digits), Some(n));
    }
    let mut text = String::new();
    push_bracketed(&mut text, 3, 12);
    assert_eq!(text, "(3,12)");
}

#[test]
fn digits_that_are_no_number() {
    assert_eq!(parse_digits(&vec![]), None);
    let long: Vec<char> = "99999999999999999999999".chars().collect();
    assert_eq!(parse_digits(&long), None);
    let over: Vec<char> = format!("{}0", usize::MAX).chars().collect();
    assert_eq!(parse_digits(&over), None);
    assert_eq!(parse_digits(&vec!['0', '0', '4']), Some(4));
}

#[test]
fn cursor_stops_at_the_edges() {
    assert_eq!(move_cursor(0, 0, 6, Key::Up), (0, 0));
    assert_eq!(move_cursor(0, 0, 6, Key::Left), (0, 0));
    assert_eq!(move_cursor(5, 5, 6, Key::Down), (5, 5));
    assert_eq!(move_cursor(5, 5, 6, Key::Right), (5, 5));
    assert_eq!(move_cursor(2, 3, 6, Key::Up), (1, 3));
    assert_eq!(move_cursor(2, 3, 6, Key::Down), (3, 3));
    assert_eq!(move_cursor(2, 3, 6, Key::Left), (2, 2));
    assert_eq!(move_cursor(2, 3, 6, Key::Right), (2, 4));
    assert_eq!(move_cursor(2, 3, 6, Key::Char('x')), (2, 3));
}

#[test]
fn overlay_opens_and_closes_empty() {
    let mut overlay = SimInputOverlay::new();
    assert!(!overlay.active);
    overlay.activate();
    assert!(overlay.active);
    overlay.input_buffer.push('4');
    overlay.deactivate();
    assert!(!overlay.active);
    assert!(overlay.input_buffer.is_empty());
}

#[test]
fn analysis_starts_in_the_middle() {
    let state: AnalyzeState<N> = AnalyzeState::new(64);
    assert_eq!((state.cursor_row, state.cursor_col), (3, 3));
    assert_eq!(state.num_simulations, 64);
    assert_eq!(state.status_line(), "计算中...");
    assert_eq!(state.info_height(), 2);
    assert!(state.details().is_none());
    let state = screen();
    assert_eq!(state.status_line(), "done");
    assert_eq!(state.info_height(), 3);
}

#[test]
fn stones_are_placed_and_taken_back() {
    let mut state = screen();
    let before = state.board.encode_state();
    assert_eq!(state.handle_key(Key::Char(' ')), Effect::Search);
    assert!(state.computing);
    assert_eq!(state.message, "落了 (3,3) — MCTS 分析中...");
    assert_eq!(state.board.get(3, 3), 1);
    state.finish_search(result(), "found".to_string());
    assert_eq!(state.message, "found");
    assert_eq!(state.handle_key(Key::Enter), Effect::Redraw);
    assert_eq!(state.message, "该位置已有棋子！");
    assert_eq!(state.board_history.len(), 1);
    assert_eq!(state.handle_key(Key::Char('U')), Effect::Search);
    assert_eq!(state.message, "已悔棋");
    assert_eq!(state.board.encode_state(), before);
    state.finish_search(result(), "back".to_string());
    assert_eq!(state.handle_key(Key::Char('u')), Effect::Redraw);
    assert_eq!(state.message, "无法悔棋（已到棋盘初始状态）");
}

#[test]
fn a_finished_game_is_announced() {
    let mut state = screen();
    let mut last = Effect::Redraw;
    for (r, c) in [(0, 0), (5, 0), (0, 1), (5, 2), (0, 2), (5, 4), (0, 3)] {
        state.cursor_row = r;
        state.cursor_col = c;
        last = state.handle_key(Key::Enter);
        state.finish_search(result(), "next".to_string());
    }
    assert_eq!(last, Effect::Search);
    assert_eq!(state.message, "黑子 ● 获胜！按 Q 退出");
    assert_eq!(state.handle_key(Key::Char('f')), Effect::Redraw);
    assert_eq!(state.message, "游戏已结束，无法分析");
    assert_eq!(state.handle_key(Key::Char(' ')), Effect::Redraw);
    assert_eq!(state.message, "游戏已结束，按 Q 退出");
    assert_eq!(state.handle_key(Key::Char('u')), Effect::Search);
    assert!(!state.board.game_over);
}

#[test]
fn refreshing_searches_again() {
    let mut state = screen();
    assert_eq!(state.handle_key(Key::Char('F')), Effect::Search);
    assert_eq!(state.message, "MCTS 搜索中...");
    assert!(state.computing);
    state.finish_search(result(), "again".to_string());
    assert_eq!(state.message, "again");
}

#[test]
fn simulations_are_typed() {
    let mut state = screen();
    assert_eq!(state.handle_key(Key::Char('s')), Effect::Redraw);
    assert_eq!(state.message, "请输入模拟次数 (Enter 确认, Esc 取消):");
    press(&mut state, &[Key::Char('1'), Key::Char('x'), Key::Char('2'), Key::Char('8')]);
    assert_eq!(state.status_line(), "模拟次数: 128_  (输入数字后按 Enter)");
    press(&mut state, &[Key::Backspace, Key::Char('q'), Key::Up]);
    assert_eq!(state.status_line(), "模拟次数: 12_  (输入数字后按 Enter)");
    assert_eq!(state.handle_key(Key::Enter), Effect::Redraw);
    assert_eq!(state.num_simulations, 12);
    assert_eq!(state.message, "模拟次数已设置为 12");
    assert!(!state.overlay.active);
    press(&mut state, &[Key::Char('S'), Key::Char('0'), Key::Enter]);
    assert_eq!(state.num_simulations, 12);
    press(&mut state, &[Key::Char('S'), Key::Backspace, Key::Enter]);
    assert_eq!(state.num_simulations, 12);
    press(&mut state, &[Key::Char('S'), Key::Char('5'), Key::Esc]);
    assert_eq!(state.num_simulations, 12);
    assert!(!state.overlay.active);
}

#[test]
fn q_leaves_the_analysis() {
    let mut state = screen();
    assert_eq!(state.handle_key(Key::Other), Effect::Redraw);
    assert_eq!(state.handle_key(Key::Esc), Effect::Redraw);
    assert_eq!(state.handle_key(Key::Char('q')), Effect::Quit);
    assert_eq!(state.handle_key(Key::Char('Q')), Effect::Quit);
}

#[test]
fn details_of_the_cell_under_the_cursor() {
    let state = screen();
    let d = state.details().unwrap();
    assert_eq!((d.row, d.col, d.empty), (3, 3, true));
    assert_eq!((d.nn_value, d.prior, d.q, d.policy, d.visits), (N(5), N(40), N(30), N(70), 12));
    let mut state = screen();
    state.handle_key(Key::Char(' '));
    assert!(state.details().is_none());
    let mut short = result();
    short.policy.truncate(3);
    short.children_visits.truncate(3);
    state.finish_search(short, "short".to_string());
    let d = state.details().unwrap();
    assert!(!d.empty);
    assert_eq!((d.policy, d.visits), (N(0), 0));
}

#[test]
fn details_need_room() {
    let state = screen();
    let area = Area { x: 2, y: 1, width: 30, height: 20 };
    let place = state.details_area(area, 4).unwrap();
    assert_eq!(place, Area { x: 22, y: 4, width: 9, height: 9 });
    let wide = Area { x: 0, y: 0, width: 200, height: 20 };
    assert_eq!(state.details_area(wide, 0).unwrap().width, 28);
    let narrow = Area { x: 0, y: 0, width: 21, height: 20 };
    assert!(state.details_area(narrow, 0).is_none());
}

#[test]
fn shown_numbers_of_simulations() {
    assert_eq!(shown_simulations(&vec![1, 2, 3]), 6);
    assert_eq!(shown_simulations(&vec![0, 0]), 1);
    assert_eq!(shown_simulations(&vec![]), 1);
}

#[test]
fn marks_of_the_analysis() {
    let mut state = screen();
    let small = Area { x: 3, y: 4, width: 18, height: 30 };
    let hot = vec![false; 36];
    assert_eq!(state.marks(&hot, small), vec![Mark { x: 3, y: 4, symbol: Symbol::TooSmall }]);
    let low = Area { x: 0, y: 0, width: 40, height: 9 };
    assert_eq!(state.marks(&hot, low)[0].symbol, Symbol::TooSmall);
    let area = Area { x: 1, y: 2, width: 25, height: 12 };
    let marks = state.marks(&hot, area);
    assert_eq!(marks.len(), 6 + 6 * 7);
    assert_eq!(marks[0], Mark { x: 6, y: 4, symbol: Symbol::Column(b'A') });
    assert_eq!(marks[5], Mark { x: 21, y: 4, symbol: Symbol::Column(b'F') });
    assert_eq!(marks[6], Mark { x: 4, y: 5, symbol: Symbol::Row(0) });
    assert_eq!(marks[7], Mark { x: 6, y: 5, symbol: Symbol::Point });
    assert_eq!(marks[6 + 3 * 7 + 4], Mark { x: 15, y: 8, symbol: Symbol::Cursor });
    state.handle_key(Key::Left);
    let mut warm = hot.clone();
    warm[7] = true;
    let marks = state.marks(&warm, area);
    assert_eq!(marks.len(), 6 + 6 * 7 + 1);
    assert_eq!(marks[6 + 7 + 2].symbol, Symbol::Heat(7));
    assert_eq!(*marks.last().unwrap(), Mark { x: 15, y: 8, symbol: Symbol::Star });
    warm[21] = true;
    let marks = state.marks(&warm, area);
    assert_eq!(marks.len(), 6 + 6 * 7);
    state.handle_key(Key::Char(' '));
    let marks = state.marks(&warm, area);
    assert_eq!(marks.len(), 6 + 6 * 7);
    assert_eq!(marks[6 + 3 * 7 + 3].symbol, Symbol::Black);
    assert_eq!(marks[6 + 3 * 7 + 4].symbol, Symbol::Point);
}

#[test]
fn symbols_as_text() {
    assert_eq!(Symbol::TooSmall.text(), "Terminal too small — resize and restart");
    assert_eq!(Symbol::Column(b'C').text(), "C");
    assert_eq!(Symbol::Row(3).text(), format!("{:2}", 3));
    assert_eq!(Symbol::Row(14).text(), format!("{:2}", 14));
    assert_eq!(Symbol::Row(120).text(), format!("{:2}", 120));
    assert_eq!(Symbol::Point.text(), "⋅");
    assert_eq!(Symbol::Cursor.text(), "+");
    assert_eq!(Symbol::Heat(1).text(), " ");
    assert_eq!(Symbol::Black.text(), "●");
    assert_eq!(Symbol::White.text(), "○");
    assert_eq!(Symbol::Unknown.text(), "?");
    assert_eq!(Symbol::Star.text(), "╋");
}

#[test]
fn marks_stay_in_an_area_that_is_large_enough() {
    let mut board = Board::with_size(9, 5);
    board.play(1, 1);
    board.play(8, 8);
    for (x, y, w, h) in [(0, 0, 28, 11), (7, 3, 29, 12), (100, 50, 60, 40)] {
        let area = Area { x, y, width: w, height: h };
        for mark in board_marks(&board, (0, 0), &vec![], false, area) {
            assert!(mark.x >= x && mark.x < x + w);
            assert!(mark.y >= y && mark.y < y + h);
        }
    }
}

#[test]
fn person_and_program_move_in_turn() {
    let mut state = GameState::new(Board::with_size(15, 5));
    assert_eq!((state.cursor_row, state.cursor_col), (7, 7));
    assert_eq!(state.message, "你的回合 (黑子 ●) — 箭头键移动, 空格落子, Q 退出");
    assert_eq!(state.handle_key(Key::Up), Effect::Redraw);
    assert_eq!(state.handle_key(Key::Char(' ')), Effect::Search);
    assert_eq!(state.message, "你落了 (6,7)...");
    assert_eq!(state.board.current_player, Color::White);
    assert_eq!(state.handle_key(Key::Char('q')), Effect::Redraw);
    state.ai_move(225);
    assert_eq!(state.board.step_count, 1);
    state.ai_move(17);
    assert_eq!(state.message, "AI 落了 (1,2) — 你的回合");
    assert_eq!(state.board.get(1, 2), 2);
    assert_eq!(state.handle_key(Key::Enter), Effect::Redraw);
    assert_eq!(state.message, "该位置已有棋子！");
    assert_eq!(state.handle_key(Key::Char('Q')), Effect::Redraw);
    assert_eq!(state.handle_key(Key::Char('q')), Effect::Quit);
}

#[test]
fn a_finished_game_waits_for_q() {
    let mut state = GameState::new(Board::with_size(3, 3));
    for (cell, answer) in [((0, 0), 3), ((0, 1), 4)] {
        state.cursor_row = cell.0;
        state.cursor_col = cell.1;
        assert_eq!(state.handle_key(Key::Enter), Effect::Search);
        state.ai_move(answer);
    }
    state.cursor_row = 0;
    state.cursor_col = 2;
    assert_eq!(state.handle_key(Key::Enter), Effect::Redraw);
    assert!(state.board.game_over);
    assert_eq!(state.handle_key(Key::Enter), Effect::Redraw);
    assert_eq!(state.handle_key(Key::Up), Effect::Redraw);
    assert_eq!(state.cursor_row, 0);
    assert_eq!(state.handle_key(Key::Char('q')), Effect::Quit);
}

#[test]
fn marks_of_a_game() {
    let state = GameState::new(Board::with_size(15, 5));
    let marks = state.marks(Area { x: 0, y: 0, width: 46, height: 17 });
    assert_eq!(marks.len(), 15 + 15 * 16);
    assert_eq!(marks[15 + 16 * 7 + 8], Mark { x: 23, y: 8, symbol: Symbol::Cursor });
    let marks = state.marks(Area { x: 5, y: 6, width: 10, height: 4 });
    assert_eq!(marks[0], Mark { x: 7, y: 6, symbol: Symbol::Column(b'A') });
}

#[test]
fn names_of_colors() {
    assert_eq!(color_name(Color::Black), "黑子 ●");
    assert_eq!(color_name(Color::White), "白子 ○");
}
