use tui_games::connect4::best_move;
use tui_games::connect4::drop_on_board;
use tui_games::connect4::evaluate;
use tui_games::connect4::has_four_at;
use tui_games::connect4::minimax;
use tui_games::connect4::move_order;
use tui_games::connect4::score_window;
use tui_games::connect4::Board;
use tui_games::connect4::Connect4Game;
use tui_games::connect4::Disc;
use tui_games::connect4::GameResult;
use tui_games::connect4::Player;
use tui_games::connect4::WIN_SCORE;
use tui_games::input::Key;
use tui_games::input::KeyInput;
use tui_games::input::KeyKind;

fn board_with(pieces: &[(usize, usize, Player)]) -> Board {
    let mut board: Board = [None; 42];
    for &(r, c, p) in pieces {
        board[r * 7 + c] = Some(p);
    }
    board
}

fn pieces_on(game: &Connect4Game) -> u32 {
    let mut n = 0;
    for r in 0..6 {
        for c in 0..7 {
            if game.cell_at(r, c).is_some() {
                n += 1;
            }
        }
    }
    n
}

#[test]
fn new_game_is_empty_with_center_cursor() {
    let game = Connect4Game::new();
    assert_eq!(pieces_on(&game), 0);
    assert_eq!(game.selected_col(), 3);
    assert_eq!(game.current_player(), Player::Human);
    assert_eq!(game.result(), None);
    assert!(!game.is_game_over());
    assert!(!game.ai_pending());
}

#[test]
fn pieces_stack_from_the_bottom_and_turns_alternate() {
    let mut game = Connect4Game::new();
    game.make_move(3);
    assert_eq!(game.cell_at(5, 3), Some(Player::Human));
    assert_eq!(game.current_player(), Player::Ai);
    game.make_move(3);
    assert_eq!(game.cell_at(4, 3), Some(Player::Ai));
    assert_eq!(game.current_player(), Player::Human);
    assert_eq!(game.move_count(), 2);
    assert_eq!(pieces_on(&game), game.move_count());
}

#[test]
fn full_column_refuses_more_pieces() {
    let mut game = Connect4Game::new();
    for _ in 0..6 {
        game.make_move(0);
    }
    assert!(game.column_full(0));
    assert_eq!(game.move_count(), 6);
    let player = game.current_player();
    game.make_move(0);
    assert_eq!(game.move_count(), 6);
    assert_eq!(game.current_player(), player);
}

#[test]
fn four_in_a_row_wins_and_marks_the_line() {
    let mut game = Connect4Game::new();
    for col in [0, 0, 1, 1, 2, 2, 3] {
        game.make_move(col);
    }
    assert_eq!(game.result(), Some(GameResult::Win(Player::Human)));
    assert!(game.is_game_over());
    assert_eq!(game.winning_cells(), &vec![(5, 3), (5, 2), (5, 1), (5, 0)]);
    assert!(game.is_winning_cell(5, 0));
    assert!(!game.is_winning_cell(4, 0));
    assert_eq!(game.check_win(5, 1), Some(vec![(5, 1), (5, 2), (5, 3), (5, 0)]));
    assert_eq!(game.check_win(4, 0), None);
    assert_eq!(game.disc_at(5, 0), Disc::Winning(Player::Human));
    assert_eq!(game.disc_at(4, 0), Disc::Plain(Player::Ai));
    assert_eq!(game.disc_at(0, 0), Disc::Empty);
}

#[test]
fn vertical_and_diagonal_lines_count() {
    let vertical = board_with(&[
        (5, 6, Player::Ai),
        (4, 6, Player::Ai),
        (3, 6, Player::Ai),
        (2, 6, Player::Ai),
    ]);
    assert!(has_four_at(&vertical, 2, 6));
    assert!(has_four_at(&vertical, 5, 6));
    let diagonal = board_with(&[
        (5, 0, Player::Human),
        (4, 1, Player::Human),
        (3, 2, Player::Human),
        (2, 3, Player::Human),
    ]);
    assert!(has_four_at(&diagonal, 3, 2));
    let three = board_with(&[(5, 0, Player::Human), (4, 1, Player::Human), (3, 2, Player::Human)]);
    assert!(!has_four_at(&three, 3, 2));
    assert!(!has_four_at(&three, 0, 0));
}

#[test]
fn keys_move_the_cursor_and_drop_a_piece() {
    let mut game = Connect4Game::new();
    assert!(game.handle_key_event(KeyInput::press(Key::Left)));
    assert_eq!(game.selected_col(), 2);
    for _ in 0..5 {
        game.handle_key_event(KeyInput::press(Key::Left));
    }
    assert_eq!(game.selected_col(), 0);
    for _ in 0..9 {
        game.handle_key_event(KeyInput::press(Key::Right));
    }
    assert_eq!(game.selected_col(), 6);
    let release = KeyInput { key: Key::Enter, kind: KeyKind::Release };
    assert!(!game.handle_key_event(release));
    assert_eq!(game.move_count(), 0);
    assert!(!game.handle_key_event(KeyInput::press(Key::Char('x'))));
    assert!(game.handle_key_event(KeyInput::press(Key::Enter)));
    assert_eq!(game.cell_at(5, 6), Some(Player::Human));
    assert!(game.ai_pending());
    // The human cannot move while the AI is due.
    assert!(!game.handle_key_event(KeyInput::press(Key::Left)));
}

#[test]
fn ai_moves_once_its_delay_has_passed() {
    let mut game = Connect4Game::new();
    game.handle_key_event(KeyInput::press(Key::Char(' ')));
    assert_eq!(game.move_count(), 1);
    game.tick(false);
    assert_eq!(game.move_count(), 1);
    assert!(game.ai_pending());
    game.tick(true);
    assert_eq!(game.move_count(), 2);
    assert!(!game.ai_pending());
    assert_eq!(game.current_player(), Player::Human);
    assert_eq!(pieces_on(&game), 2);
}

#[test]
fn enter_restarts_a_finished_game() {
    let mut game = Connect4Game::new();
    for col in [0, 0, 1, 1, 2, 2, 3] {
        game.make_move(col);
    }
    assert!(!game.handle_key_event(KeyInput::press(Key::Left)));
    assert!(game.handle_key_event(KeyInput::press(Key::Enter)));
    assert!(!game.is_game_over());
    assert_eq!(pieces_on(&game), 0);
    assert_eq!(game.selected_col(), 3);
    assert!(game.winning_cells().is_empty());
}

#[test]
fn drop_on_board_lands_on_the_lowest_free_row() {
    let mut board: Board = [None; 42];
    assert_eq!(drop_on_board(&mut board, 2, Player::Ai), Some(5));
    assert_eq!(drop_on_board(&mut board, 2, Player::Human), Some(4));
    assert_eq!(board[5 * 7 + 2], Some(Player::Ai));
    assert_eq!(board[4 * 7 + 2], Some(Player::Human));
    for _ in 0..4 {
        drop_on_board(&mut board, 2, Player::Ai);
    }
    assert_eq!(drop_on_board(&mut board, 2, Player::Human), None);
}

#[test]
fn windows_score_by_the_pieces_of_one_side() {
    let a = Some(Player::Ai);
    let h = Some(Player::Human);
    assert_eq!(score_window(a, a, a, None), 5);
    assert_eq!(score_window(a, None, a, None), 2);
    assert_eq!(score_window(h, h, None, h), -5);
    assert_eq!(score_window(None, h, h, None), -2);
    assert_eq!(score_window(a, a, h, None), 0);
    assert_eq!(score_window(a, a, a, a), 0);
    assert_eq!(score_window(a, None, None, None), 0);
}

#[test]
fn evaluation_prefers_the_center_and_pairs() {
    assert_eq!(evaluate(&[None; 42]), 0);
    assert_eq!(evaluate(&board_with(&[(5, 3, Player::Ai)])), 3);
    assert_eq!(evaluate(&board_with(&[(5, 3, Player::Human)])), -3);
    assert_eq!(evaluate(&board_with(&[(5, 3, Player::Ai), (5, 4, Player::Ai)])), 9);
}

#[test]
fn search_order_starts_in_the_center() {
    let order: Vec<usize> = (0..7).map(move_order).collect();
    assert_eq!(order, vec![3, 2, 4, 1, 5, 0, 6]);
}

#[test]
fn minimax_at_depth_zero_is_the_evaluation() {
    let board = board_with(&[(5, 3, Player::Ai), (5, 4, Player::Ai)]);
    assert_eq!(minimax(&board, 0, i32::MIN + 1, i32::MAX, true, 2), evaluate(&board));
    assert_eq!(minimax(&board, 3, i32::MIN + 1, i32::MAX, true, 42), 0);
}

#[test]
fn minimax_sees_an_unstoppable_double_threat() {
    let board = board_with(&[
        (5, 1, Player::Human),
        (5, 2, Player::Human),
        (5, 3, Player::Human),
        (4, 1, Player::Ai),
        (4, 2, Player::Ai),
    ]);
    assert_eq!(minimax(&board, 2, i32::MIN + 1, i32::MAX, true, 5), -(WIN_SCORE + 1));
}

#[test]
fn ai_takes_an_immediate_win() {
    let board = board_with(&[
        (5, 0, Player::Ai),
        (5, 1, Player::Ai),
        (5, 2, Player::Ai),
        (4, 0, Player::Human),
        (4, 1, Player::Human),
        (4, 2, Player::Human),
    ]);
    assert_eq!(best_move(&board, 6), Some(3));
}

#[test]
fn ai_finds_no_move_on_a_full_board() {
    let mut board: Board = [None; 42];
    for r in 0..6 {
        for c in 0..7 {
            // Columns in pairs, alternating every row: no four in a row.
            let p = if ((c / 2) + r) % 2 == 0 { Player::Ai } else { Player::Human };
            board[r * 7 + c] = Some(p);
        }
    }
    assert_eq!(best_move(&board, 42), None);
}

#[test]
fn evaluation_is_symmetric_in_players_and_mirror() {
    let board = board_with(&[
        (5, 0, Player::Ai),
        (5, 1, Player::Ai),
        (4, 1, Player::Human),
        (5, 3, Player::Human),
        (3, 2, Player::Ai),
    ]);
    let mut swapped: Board = [None; 42];
    let mut mirrored: Board = [None; 42];
    for r in 0..6 {
        for c in 0..7 {
            swapped[r * 7 + c] = match board[r * 7 + c] {
                Some(Player::Ai) => Some(Player::Human),
                Some(Player::Human) => Some(Player::Ai),
                None => None,
            };
            mirrored[r * 7 + c] = board[r * 7 + 6 - c];
        }
    }
    assert_eq!(evaluate(&swapped), -evaluate(&board));
    assert_eq!(evaluate(&mirrored), evaluate(&board));
}

#[test]
fn minimax_fails_soft_with_the_best_score_found() {
    let empty: Board = [None; 42];
    // Every reply scores below the window: the best of them comes back.
    assert_eq!(minimax(&empty, 1, 1000, 2000, true, 0), 3);
    assert_eq!(minimax(&empty, 1, i32::MIN + 1, i32::MAX, true, 0), 3);
    // Above the window on the human's side.
    assert_eq!(minimax(&empty, 1, -2000, -1000, false, 0), -3);
}
