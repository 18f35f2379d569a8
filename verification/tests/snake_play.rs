use tui_games::input::Key;
use tui_games::input::KeyInput;
use tui_games::input::KeyKind;
use tui_games::snake::Dir;
use tui_games::snake::SnakeGame;
use tui_games::snake::TickAction;
use tui_games::snake::Tile;
use tui_games::snake::visible_field;
use tui_games::snake::TICK_NANOS;

fn press(game: &mut SnakeGame, key: Key) -> bool {
    game.handle_key_event(KeyInput::press(key))
}

fn assert_on_field(game: &SnakeGame) {
    let body: Vec<(i32, i32)> = game.body().iter().copied().collect();
    for (i, &(r, c)) in body.iter().enumerate() {
        assert!(r >= 0 && r < game.field_h() && c >= 0 && c < game.field_w());
        assert!(!body[i + 1..].contains(&(r, c)));
    }
    let (fr, fc) = game.food();
    assert!(fr >= 0 && fr < game.field_h() && fc >= 0 && fc < game.field_w());
}

#[test]
fn new_snake_lies_left_of_center_heading_right() {
    let game = SnakeGame::new();
    let body: Vec<(i32, i32)> = game.body().iter().copied().collect();
    assert_eq!(body, vec![(7, 7), (7, 8), (7, 9), (7, 10)]);
    assert_eq!(game.head(), Some((7, 10)));
    assert_eq!(game.score(), 0);
    assert_eq!((game.field_w(), game.field_h()), (30, 15));
    assert!(!body.contains(&game.food()));
    assert_on_field(&game);
}

#[test]
fn turning_changes_the_next_move() {
    let mut game = SnakeGame::new();
    assert!(press(&mut game, Key::Up));
    game.step();
    assert_eq!(game.head(), Some((6, 10)));
    assert_eq!(game.body().len(), 4);
    assert_eq!(game.body()[0], (7, 8));
}

#[test]
fn reversing_is_ignored() {
    let mut game = SnakeGame::new();
    assert!(press(&mut game, Key::Left));
    game.step();
    assert_eq!(game.head(), Some((7, 11)));
    // A turn already queued decides what counts as reversing.
    assert!(press(&mut game, Key::Up));
    assert!(press(&mut game, Key::Down));
    game.step();
    assert_eq!(game.head(), Some((6, 11)));
}

#[test]
fn other_keys_and_releases_are_not_consumed() {
    let mut game = SnakeGame::new();
    assert!(!press(&mut game, Key::Char('q')));
    assert!(!game.handle_key_event(KeyInput { key: Key::Up, kind: KeyKind::Release }));
    game.step();
    assert_eq!(game.head(), Some((7, 11)));
}

#[test]
fn hitting_the_wall_ends_the_game() {
    let mut game = SnakeGame::new();
    for _ in 0..19 {
        game.step();
        assert!(!game.is_game_over());
    }
    assert_eq!(game.head(), Some((7, 29)));
    game.step();
    assert!(game.is_game_over());
    assert_eq!(game.head(), Some((7, 29)));
    assert_eq!(game.tick(TICK_NANOS), TickAction::Idle);
}

#[test]
fn ticks_move_only_after_a_full_interval() {
    let mut game = SnakeGame::new();
    assert_eq!(game.tick(TICK_NANOS - 1), TickAction::Wait);
    assert_eq!(game.head(), Some((7, 10)));
    assert_eq!(game.tick(TICK_NANOS), TickAction::Moved);
    assert_eq!(game.head(), Some((7, 11)));
}

#[test]
fn restart_after_crash() {
    let mut game = SnakeGame::new();
    for _ in 0..20 {
        game.step();
    }
    assert!(game.is_game_over());
    assert!(!press(&mut game, Key::Up));
    assert!(press(&mut game, Key::Char(' ')));
    assert!(!game.is_game_over());
    assert_eq!(game.head(), Some((7, 10)));
    assert_eq!(game.score(), 0);
    assert_on_field(&game);
}

/// Steers the snake onto the current food: first to its row, then along it.
fn steer_to_food(game: &mut SnakeGame) {
    let mut heading = Dir::Right;
    let (fr, fc) = game.food();
    for _ in 0..200 {
        let (hr, hc) = game.head().unwrap();
        if (hr, hc) == (fr, fc) {
            return;
        }
        let toward_col = if fc < hc { Dir::Left } else { Dir::Right };
        let want = if hr == fr {
            if heading == toward_col.opposite() {
                // Cannot reverse: leave the row first.
                if hr > 0 { Dir::Up } else { Dir::Down }
            } else {
                toward_col
            }
        } else {
            let toward_row = if fr < hr { Dir::Up } else { Dir::Down };
            if heading == toward_row.opposite() {
                if hc > 0 { Dir::Left } else { Dir::Right }
            } else {
                toward_row
            }
        };
        let key = match want {
            Dir::Up => Key::Up,
            Dir::Down => Key::Down,
            Dir::Left => Key::Left,
            Dir::Right => Key::Right,
        };
        press(game, key);
        heading = want;
        game.step();
        assert!(!game.is_game_over());
    }
    panic!("did not reach the food");
}

#[test]
fn eating_grows_the_snake_and_scores() {
    let mut game = SnakeGame::new();
    let food = game.food();
    steer_to_food(&mut game);
    assert_eq!(game.head(), Some(food));
    assert_eq!(game.score(), 10);
    assert_eq!(game.body().len(), 5);
    assert_ne!(game.food(), food);
    assert_on_field(&game);
}

#[test]
fn directions_have_opposites_and_deltas() {
    assert_eq!(Dir::Up.opposite(), Dir::Down);
    assert_eq!(Dir::Left.opposite(), Dir::Right);
    assert_eq!(Dir::Up.delta(), (-1, 0));
    assert_eq!(Dir::Right.delta(), (0, 1));
}

#[test]
fn tiles_show_head_body_and_food() {
    let game = SnakeGame::new();
    assert_eq!(game.tile_at(7, 10), Tile::Head);
    assert_eq!(game.tile_at(7, 7), Tile::Body);
    let (fr, fc) = game.food();
    assert_eq!(game.tile_at(fr, fc), Tile::Food);
    assert_eq!(game.tile_at(0, 0), Tile::Empty);
}

#[test]
fn body_stays_a_connected_path() {
    let mut game = SnakeGame::new();
    press(&mut game, Key::Up);
    game.step();
    press(&mut game, Key::Left);
    game.step();
    let body: Vec<(i32, i32)> = game.body().iter().copied().collect();
    assert_eq!(body, vec![(7, 9), (7, 10), (6, 10), (6, 9)]);
    for pair in body.windows(2) {
        let (a, b) = (pair[0], pair[1]);
        assert_eq!((a.0 - b.0).abs() + (a.1 - b.1).abs(), 1);
    }
}

#[test]
fn small_areas_show_part_of_the_field() {
    assert_eq!(visible_field(80, 30), (30, 15));
    assert_eq!(visible_field(24, 10), (10, 6));
    assert_eq!(visible_field(3, 2), (0, 0));
}
