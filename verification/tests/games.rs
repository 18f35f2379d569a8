use std::time::Duration;

use tui_games::snake::SnakeGame;
use tui_games::snake::TICK_MS;
use tui_games::wordle::WordleGame;
use tui_games::wordlist::word_list;
use tui_games::wordlist::WORD_LEN;

#[test]
fn snake_does_not_self_collide_on_first_tick() {
    let mut game = SnakeGame::new();
    let elapsed = Duration::from_millis(TICK_MS + 1);

    game.tick(elapsed.as_nanos());

    assert!(!game.is_game_over());
}

#[test]
fn snake_moves_right_by_default() {
    let mut game = SnakeGame::new();
    let (_, head_col_before) = game.head().expect("head exists");
    let elapsed = Duration::from_millis(TICK_MS + 1);

    game.tick(elapsed.as_nanos());

    let (_, head_col_after) = game.head().expect("head exists");
    assert_eq!(head_col_after, head_col_before + 1);
}

#[test]
fn rejects_guess_not_in_word_list() {
    let mut game = WordleGame::new();
    game.set_current_input(vec!['Z', 'Z', 'Z', 'Z', 'Z']);

    game.submit_guess();

    assert_eq!(game.guesses().len(), 0);
    assert_eq!(game.message(), Some("Invalid word (not in word list)"));
}

#[test]
fn word_list_is_non_empty_and_lowercase() {
    let words = word_list();

    assert_eq!(words.is_empty(), false);
    assert_eq!(words.iter().all(|word| word.len() == WORD_LEN), true);
    assert_eq!(
        words
            .iter()
            .all(|word| word.iter().all(|ch| ch.is_ascii_lowercase())),
        true
    );
}
