use tui_games::input::Key;
use tui_games::input::KeyInput;
use tui_games::input::KeyKind;
use tui_games::tetris::clear_full_rows;
use tui_games::tetris::collides_on_board;
use tui_games::tetris::preview_cells;
use tui_games::tetris::rotation_offsets;
use tui_games::tetris::shape_for;
use tui_games::tetris::visible_rows;
use tui_games::tetris::ActivePiece;
use tui_games::tetris::Board;
use tui_games::tetris::Cell;
use tui_games::tetris::KeyResult;
use tui_games::tetris::Look;
use tui_games::tetris::Shape;
use tui_games::tetris::TetrisGame;
use tui_games::tetris::FAST_TICK_NANOS;
use tui_games::tetris::SOFT_DROP_GRACE_NANOS;
use tui_games::tetris::TICK_NANOS;

fn press(game: &mut TetrisGame, key: Key) -> KeyResult {
    game.handle_key_event(KeyInput::press(key))
}

#[test]
fn new_game_deals_an_i_piece_at_the_top() {
    let game = TetrisGame::new();
    let piece = game.piece().unwrap();
    assert_eq!(piece, ActivePiece { shape: Shape::I, rotation: 0, row: 3, col: 4 });
    assert_eq!(piece.cells(), [(3, 4), (3, 5), (3, 6), (3, 7)]);
    assert_eq!(game.next_shape(), Shape::O);
    assert_eq!(game.score(), 0);
    assert_eq!(game.lines_cleared(), 0);
    assert!(!game.is_game_over());
}

#[test]
fn pieces_are_dealt_in_a_fixed_cycle() {
    let shapes: Vec<Shape> = (0..9).map(shape_for).collect();
    assert_eq!(
        shapes,
        vec![Shape::I, Shape::O, Shape::T, Shape::S, Shape::Z, Shape::L, Shape::J, Shape::I, Shape::O]
    );
}

#[test]
fn hard_drop_locks_at_the_floor_and_deals_the_next_piece() {
    let mut game = TetrisGame::new();
    assert_eq!(press(&mut game, Key::Enter), KeyResult::Handled);
    for c in 4..8 {
        assert_eq!(game.cell_at(19, c), Cell::Filled(Shape::I));
    }
    assert_eq!(game.cell_at(19, 3), Cell::Empty);
    assert_eq!(game.cell_at(18, 4), Cell::Empty);
    assert_eq!(game.piece().unwrap().shape, Shape::O);
    assert_eq!(game.next_shape(), Shape::T);
}

#[test]
fn walls_stop_sideways_moves() {
    let mut game = TetrisGame::new();
    for _ in 0..10 {
        press(&mut game, Key::Left);
    }
    assert_eq!(game.piece().unwrap().col, 0);
    for _ in 0..10 {
        press(&mut game, Key::Right);
    }
    assert_eq!(game.piece().unwrap().col, 6);
}

#[test]
fn rotation_kicks_off_the_wall() {
    let mut game = TetrisGame::new();
    // T piece third.
    press(&mut game, Key::Enter);
    press(&mut game, Key::Enter);
    assert_eq!(game.piece().unwrap().shape, Shape::T);
    press(&mut game, Key::Up);
    assert_eq!(game.piece().unwrap().rotation, 1);
    for _ in 0..6 {
        press(&mut game, Key::Left);
    }
    // Rotation 1 of T reaches one column right of its origin: it can sit at 0.
    assert_eq!(game.piece().unwrap().col, 0);
    press(&mut game, Key::Up);
    press(&mut game, Key::Up);
    // Rotation 3 reaches one column left of its origin: kicked right to 1.
    let piece = game.piece().unwrap();
    assert_eq!((piece.rotation, piece.col), (3, 1));
}

#[test]
fn filling_the_bottom_row_clears_it_and_scores() {
    let mut game = TetrisGame::new();
    // I across columns 0..=3.
    for _ in 0..4 {
        press(&mut game, Key::Left);
    }
    press(&mut game, Key::Enter);
    // O in columns 8 and 9.
    for _ in 0..4 {
        press(&mut game, Key::Right);
    }
    press(&mut game, Key::Enter);
    // T upside down across columns 4..=6.
    press(&mut game, Key::Up);
    press(&mut game, Key::Char(' '));
    press(&mut game, Key::Enter);
    // S on end, its foot in column 7.
    press(&mut game, Key::Up);
    press(&mut game, Key::Right);
    press(&mut game, Key::Right);
    press(&mut game, Key::Enter);

    assert_eq!(game.lines_cleared(), 1);
    assert_eq!(game.score(), 100);
    let bottom: Vec<Cell> = (0..10).map(|c| game.cell_at(19, c)).collect();
    let e = Cell::Empty;
    assert_eq!(
        bottom,
        vec![
            e,
            e,
            e,
            e,
            e,
            Cell::Filled(Shape::T),
            Cell::Filled(Shape::S),
            Cell::Filled(Shape::S),
            Cell::Filled(Shape::O),
            Cell::Filled(Shape::O),
        ]
    );
    assert_eq!(game.cell_at(18, 6), Cell::Filled(Shape::S));
    assert_eq!(game.cell_at(18, 7), Cell::Empty);
    assert_eq!(game.piece().unwrap().shape, Shape::Z);
}

#[test]
fn stacking_to_the_top_ends_the_game_and_enter_restarts() {
    let mut game = TetrisGame::new();
    let mut drops = 0;
    while !game.is_game_over() && drops < 100 {
        press(&mut game, Key::Enter);
        drops += 1;
    }
    assert!(game.is_game_over());
    assert_eq!(game.piece(), None);
    assert_eq!(press(&mut game, Key::Left), KeyResult::Ignored);
    assert_eq!(press(&mut game, Key::Enter), KeyResult::Handled);
    assert!(!game.is_game_over());
    assert_eq!(game.score(), 0);
    assert_eq!(game.cell_at(19, 4), Cell::Empty);
    assert_eq!(game.piece().unwrap().shape, Shape::I);
}

#[test]
fn soft_drop_falls_a_row_and_speeds_up_ticks() {
    let mut game = TetrisGame::new();
    assert_eq!(press(&mut game, Key::Down), KeyResult::SoftDropPressed);
    assert!(game.is_soft_dropping());
    assert_eq!(game.piece().unwrap().row, 4);
    let r = game.tick(Some(0), FAST_TICK_NANOS);
    assert!(r.ran && r.dropped && !r.soft_drop_expired);
    assert_eq!(game.piece().unwrap().row, 5);
    // Without a fresh Down key the soft drop ends after its grace period.
    let r = game.tick(Some(SOFT_DROP_GRACE_NANOS + 1), FAST_TICK_NANOS);
    assert!(r.soft_drop_expired && !r.dropped);
    assert!(!game.is_soft_dropping());
    assert_eq!(game.piece().unwrap().row, 5);
    let released = KeyInput { key: Key::Down, kind: KeyKind::Release };
    assert_eq!(game.handle_key_event(released), KeyResult::SoftDropReleased);
}

#[test]
fn normal_ticks_wait_for_the_drop_interval() {
    let mut game = TetrisGame::new();
    let r = game.tick(None, TICK_NANOS - 1);
    assert!(r.ran && !r.dropped);
    assert_eq!(game.piece().unwrap().row, 3);
    let r = game.tick(None, TICK_NANOS);
    assert!(r.dropped);
    assert_eq!(game.piece().unwrap().row, 4);
}

#[test]
fn ghost_piece_shows_the_landing_spot() {
    let game = TetrisGame::new();
    let ghost = game.ghost_piece().unwrap();
    assert_eq!(ghost, ActivePiece { shape: Shape::I, rotation: 0, row: 19, col: 4 });
}

#[test]
fn full_rows_are_removed_and_the_rest_fall() {
    let mut board: Board = [[Cell::Empty; 10]; 20];
    board[19] = [Cell::Filled(Shape::J); 10];
    board[17] = [Cell::Filled(Shape::L); 10];
    board[18][2] = Cell::Filled(Shape::T);
    board[16][9] = Cell::Filled(Shape::Z);
    assert_eq!(clear_full_rows(&mut board), 2);
    assert_eq!(board[19][2], Cell::Filled(Shape::T));
    assert_eq!(board[18][9], Cell::Filled(Shape::Z));
    assert_eq!(board[19][0], Cell::Empty);
    assert_eq!(board[17], [Cell::Empty; 10]);
    assert_eq!(board[0], [Cell::Empty; 10]);
}

#[test]
fn collisions_cover_walls_floor_and_blocks() {
    let mut board: Board = [[Cell::Empty; 10]; 20];
    let piece = ActivePiece { shape: Shape::O, rotation: 0, row: 18, col: 8 };
    assert!(!collides_on_board(&board, &piece));
    assert!(collides_on_board(&board, &ActivePiece { col: 9, ..piece }));
    assert!(collides_on_board(&board, &ActivePiece { row: 19, ..piece }));
    assert!(!collides_on_board(&board, &ActivePiece { row: -1, ..piece }));
    board[19][9] = Cell::Filled(Shape::I);
    assert!(collides_on_board(&board, &piece));
}

#[test]
fn rotations_of_the_t_piece() {
    assert_eq!(rotation_offsets(Shape::T, 0), [(0, 0), (0, 1), (0, 2), (1, 1)]);
    assert_eq!(rotation_offsets(Shape::T, 3), [(0, 0), (1, 0), (2, 0), (1, -1)]);
    assert_eq!(rotation_offsets(Shape::I, 1), [(0, 0), (1, 0), (2, 0), (3, 0)]);
}

#[test]
fn short_screens_show_the_bottom_of_the_board() {
    assert_eq!(visible_rows(14), (7, 20));
    assert_eq!(visible_rows(21), (0, 20));
    assert_eq!(visible_rows(100), (0, 20));
    assert_eq!(visible_rows(1), (20, 20));
    assert_eq!(visible_rows(0), (20, 20));
}

#[test]
fn preview_centres_the_next_piece() {
    assert_eq!(preview_cells(Shape::I), [(1, 0), (1, 1), (1, 2), (1, 3)]);
    assert_eq!(preview_cells(Shape::O), [(1, 1), (1, 2), (2, 1), (2, 2)]);
    assert_eq!(preview_cells(Shape::T), [(1, 0), (1, 1), (1, 2), (2, 1)]);
    assert_eq!(preview_cells(Shape::S), [(1, 1), (1, 2), (2, 0), (2, 1)]);
}

#[test]
fn cells_show_the_piece_its_outline_and_the_stack() {
    let mut game = TetrisGame::new();
    assert_eq!(game.look_at(3, 4), Look::Falling(Shape::I));
    assert_eq!(game.look_at(19, 7), Look::Shadow(Shape::I));
    assert_eq!(game.look_at(19, 3), Look::Empty);
    press(&mut game, Key::Enter);
    assert_eq!(game.look_at(19, 4), Look::Locked(Shape::I));
    assert_eq!(game.look_at(3, 5), Look::Falling(Shape::O));
    assert_eq!(game.look_at(18, 5), Look::Shadow(Shape::O));
    assert_eq!(game.look_at(17, 4), Look::Shadow(Shape::O));
    assert_eq!(game.look_at(16, 4), Look::Empty);
}

#[test]
fn counters_have_room_for_the_next_lock() {
    let mut game = TetrisGame::new();
    assert!(game.drop_has_room());
    assert!(game.hard_drop_has_room());
    assert!(!game.drop_due(None, TICK_NANOS - 1));
    assert!(game.drop_due(None, TICK_NANOS));
    press(&mut game, Key::Down);
    assert!(game.drop_due(Some(0), FAST_TICK_NANOS));
    assert!(!game.drop_due(Some(SOFT_DROP_GRACE_NANOS + 1), FAST_TICK_NANOS));
}
