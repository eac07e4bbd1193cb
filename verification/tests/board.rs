use gomoku_ai::game::board::{Board, Color};

fn play_all(board: &mut Board, moves: &[(usize, usize)]) {
    for &(r, c) in moves {
        assert!(board.play(r, c));
    }
}

#[test]
fn new_board_is_empty() {
    let board = Board::new();
    assert_eq!(board.board_size, 6);
    assert_eq!(board.win_length, 4);
    assert_eq!(board.num_positions(), 36);
    assert_eq!(board.encode_len(), 36);
    assert_eq!(board.current_player, Color::Black);
    assert_eq!(board.legal_moves().len(), 36);
    assert_eq!(board.last_move, None);
    for r in 0..6 {
        for c in 0..6 {
            assert_eq!(board.get(r, c), 0);
            assert!(board.is_empty(r, c));
        }
    }
    assert_eq!(Board::with_win_length(5).win_length, 5);
    assert_eq!(Board::with_size(9, 5).num_positions(), 81);
}

#[test]
fn stones_go_where_they_are_put() {
    let mut board = Board::with_size(4, 3);
    assert!(board.play(1, 2));
    assert_eq!(board.get(1, 2), 1);
    assert!(!board.is_empty(1, 2));
    assert_eq!(board.last_move, Some((1, 2)));
    assert_eq!(board.current_player, Color::White);
    assert_eq!(board.step_count, 1);
    assert!(board.play(3, 0));
    assert_eq!(board.get(3, 0), 2);
    assert_eq!(board.get(0, 3), 0);
}

#[test]
fn illegal_moves_change_nothing() {
    let mut board = Board::with_size(3, 3);
    assert!(board.play(1, 1));
    assert!(!board.play(1, 1));
    assert!(!board.play(3, 0));
    assert!(!board.play(0, 3));
    assert!(!board.play_idx(9));
    assert!(!board.play_idx(4));
    assert_eq!(board.step_count, 1);
    assert_eq!(board.current_player, Color::White);
    assert_eq!(board.last_move, Some((1, 1)));
}

#[test]
fn lines_win_in_all_directions() {
    let lines = [
        [(0, 0), (0, 1), (0, 2), (0, 3)],
        [(1, 4), (2, 4), (3, 4), (4, 4)],
        [(1, 0), (2, 1), (3, 2), (4, 3)],
        [(0, 4), (1, 3), (2, 2), (3, 1)],
    ];
    let replies = [(5, 0), (5, 2), (5, 4)];
    for line in lines {
        for hole in 0..4 {
            let mut board = Board::new();
            let mut order = line.to_vec();
            let last = order.remove(hole);
            order.push(last);
            for i in 0..3 {
                assert!(board.play(order[i].0, order[i].1));
                assert!(board.play(replies[i].0, replies[i].1));
            }
            assert!(!board.game_over);
            assert!(board.play(order[3].0, order[3].1));
            assert!(board.check_win(order[3].0, order[3].1));
            assert!(board.game_over);
            assert_eq!(board.winner, Some(Color::Black));
            assert!(!board.play(3, 5));
            assert!(board.legal_moves().is_empty());
            assert!(board.legal_actions().is_empty());
        }
    }
}

#[test]
fn three_of_four_do_not_win() {
    let mut board = Board::new();
    play_all(&mut board, &[(0, 0), (5, 0), (0, 1), (5, 2), (0, 2)]);
    assert!(!board.game_over);
    assert!(!board.check_win(0, 2));
    assert_eq!(board.winner, None);
}

#[test]
fn five_of_four_win_too() {
    let mut board = Board::new();
    play_all(
        &mut board,
        &[(0, 0), (5, 0), (0, 1), (5, 2), (0, 3), (5, 4), (0, 4), (4, 1), (0, 2)],
    );
    assert_eq!(board.winner, Some(Color::Black));
}

#[test]
fn undo_restores_the_position() {
    let mut board = Board::with_size(3, 3);
    play_all(&mut board, &[(0, 0), (1, 0), (0, 1), (1, 1)]);
    let before = board.encode_state();
    let snapshot = board.snapshot();
    assert!(board.play(0, 2));
    assert!(board.game_over);
    board.undo(0, 2, &snapshot);
    assert!(!board.game_over);
    assert_eq!(board.winner, None);
    assert_eq!(board.current_player, Color::Black);
    assert_eq!(board.last_move, Some((1, 1)));
    assert_eq!(board.step_count, 4);
    assert_eq!(board.get(0, 2), 0);
    assert_eq!(board.encode_state(), before);
}

#[test]
fn indices_and_positions() {
    let board = Board::with_size(7, 5);
    for r in 0..7 {
        for c in 0..7 {
            let idx = board.pos_to_idx(r, c);
            assert_eq!(idx, r * 7 + c);
            assert_eq!(board.idx_to_pos(idx), (r, c));
        }
    }
}

#[test]
fn legal_moves_are_listed_in_order() {
    let mut board = Board::with_size(3, 3);
    play_all(&mut board, &[(0, 1), (2, 2)]);
    assert_eq!(board.legal_actions(), vec![0, 2, 3, 4, 5, 6, 7]);
    assert_eq!(
        board.legal_moves(),
        vec![(0, 0), (0, 2), (1, 0), (1, 1), (1, 2), (2, 0), (2, 1)]
    );
    let mut buffer = vec![(9, 9)];
    board.fill_legal_moves(&mut buffer);
    assert_eq!(buffer, board.legal_moves());
}

#[test]
fn encoding_is_relative_to_the_player() {
    let mut board = Board::with_size(3, 3);
    board.play(0, 0);
    assert_eq!(board.encode_state(), vec![2, 0, 0, 0, 0, 0, 0, 0, 0]);
    board.play(1, 1);
    assert_eq!(board.encode_state(), vec![1, 0, 0, 0, 2, 0, 0, 0, 0]);
    let mut data = [7i32; 11];
    board.encode_into(&mut data);
    assert_eq!(data, [1, 0, 0, 0, 2, 0, 0, 0, 0, 7, 7]);
}

#[test]
fn clones_are_independent() {
    let mut board = Board::with_size(3, 3);
    board.play(0, 0);
    let copy = board.clone();
    board.play(1, 1);
    assert_eq!(copy.get(1, 1), 0);
    assert_eq!(copy.get(0, 0), 1);
    assert_eq!(copy.step_count, 1);
}

#[test]
fn colors() {
    assert_eq!(Color::Black.opponent(), Color::White);
    assert_eq!(Color::White.opponent(), Color::Black);
    assert_eq!(Color::default(), Color::Black);
}

#[test]
fn a_game_never_outlasts_the_board() {
    let mut board = Board::with_size(4, 4);
    let mut moves = 0;
    while !board.game_over {
        let actions = board.legal_actions();
        assert!(!actions.is_empty());
        assert!(board.play_idx(actions[moves * 7 % actions.len()]));
        moves += 1;
    }
    assert!(moves <= 16);
    assert_eq!(board.step_count, moves);
}
