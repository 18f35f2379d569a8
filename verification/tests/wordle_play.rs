use tui_games::input::Key;
use tui_games::input::KeyInput;
use tui_games::input::KeyKind;
use tui_games::rng::xorshift32;
use tui_games::wordle::evaluate;
use tui_games::wordle::is_listed_word;
use tui_games::wordle::seed_from_millis;
use tui_games::wordle::to_lower;
use tui_games::wordle::LetterResult;
use tui_games::wordle::Square;
use tui_games::wordle::WordleGame;
use tui_games::wordle::FALLBACK_SEED;
use tui_games::wordle::NOT_ENOUGH_LETTERS;
use tui_games::wordlist::contains_word;
use tui_games::wordlist::parse_word_list;
use tui_games::wordlist::word_list;
use tui_games::wordlist::Word;

use LetterResult::Absent;
use LetterResult::Correct;
use LetterResult::Present;

fn word(s: &str) -> Word {
    let v: Vec<char> = s.chars().collect();
    [v[0], v[1], v[2], v[3], v[4]]
}

fn type_word(game: &mut WordleGame, w: &Word) {
    for &c in w.iter() {
        assert!(game.handle_key_event(KeyInput::press(Key::Char(c))));
    }
    game.handle_key_event(KeyInput::press(Key::Enter));
}

#[test]
fn marks_exact_matches_before_misplaced_letters() {
    assert_eq!(evaluate(&word("speed"), &word("abide")), [Absent, Absent, Present, Absent, Present]);
    assert_eq!(evaluate(&word("geese"), &word("these")), [Absent, Absent, Correct, Correct, Correct]);
    assert_eq!(evaluate(&word("crane"), &word("crane")), [Correct; 5]);
    assert_eq!(evaluate(&word("lemon"), &word("melon")), [Present, Correct, Present, Correct, Correct]);
}

#[test]
fn seeded_game_draws_from_the_sorted_list() {
    let game = WordleGame::with_seed(1);
    let words = word_list();
    let index = xorshift32(1) as usize % words.len();
    assert_eq!(game.target(), words[index]);
    assert!(game.guesses().is_empty());
    assert!(!game.is_game_over());
}

#[test]
fn clock_seeded_game_picks_a_listed_word() {
    let game = WordleGame::new();
    assert!(is_listed_word(&game.target()));
    assert_eq!(game.message(), None);
}

#[test]
fn seeds_come_from_the_low_bits_of_the_clock_and_are_odd() {
    assert_eq!(seed_from_millis(None), FALLBACK_SEED | 1);
    assert_eq!(seed_from_millis(Some(0x1_0000_0002)), 3);
    assert_eq!(seed_from_millis(Some(1_700_000_000_123)), (1_700_000_000_123u128 % (1u128 << 32)) as u32 | 1);
}

#[test]
fn guessing_the_word_wins() {
    let mut game = WordleGame::with_seed(7);
    let target = game.target();
    type_word(&mut game, &target);
    assert!(game.won());
    assert!(game.is_game_over());
    assert_eq!(game.guesses().len(), 1);
    assert_eq!(game.guesses()[0].results, [Correct; 5]);
    assert_eq!(game.guesses()[0].word, target);
}

#[test]
fn six_wrong_guesses_end_the_game() {
    let mut game = WordleGame::with_seed(3);
    let target = game.target();
    let wrong: Vec<Word> = word_list().into_iter().filter(|w| *w != target).take(6).collect();
    for (i, w) in wrong.iter().enumerate() {
        assert!(!game.is_game_over());
        type_word(&mut game, w);
        assert_eq!(game.guesses().len(), i + 1);
        assert_eq!(game.guesses()[i].results, evaluate(w, &target));
    }
    assert!(game.is_game_over());
    assert!(!game.won());
    assert!(!game.handle_key_event(KeyInput::press(Key::Char('a'))));
    assert!(game.handle_key_event(KeyInput::press(Key::Enter)));
    assert!(!game.is_game_over());
    assert!(game.guesses().is_empty());
}

#[test]
fn typing_lowercases_and_stops_at_five_letters() {
    let mut game = WordleGame::with_seed(5);
    for c in ['A', 'b', 'C', 'd', 'E', 'f'] {
        assert!(game.handle_key_event(KeyInput::press(Key::Char(c))));
    }
    assert_eq!(game.current_input(), &vec!['a', 'b', 'c', 'd', 'e']);
    assert!(!game.handle_key_event(KeyInput::press(Key::Char('1'))));
    assert!(game.handle_key_event(KeyInput::press(Key::Backspace)));
    assert_eq!(game.current_input(), &vec!['a', 'b', 'c', 'd']);
    let release = KeyInput { key: Key::Char('z'), kind: KeyKind::Release };
    assert!(!game.handle_key_event(release));
    assert_eq!(game.current_input().len(), 4);
}

#[test]
fn short_guesses_are_refused_with_a_message() {
    let mut game = WordleGame::with_seed(9);
    for c in ['a', 'b', 'c'] {
        game.handle_key_event(KeyInput::press(Key::Char(c)));
    }
    game.handle_key_event(KeyInput::press(Key::Enter));
    assert_eq!(game.message(), Some(NOT_ENOUGH_LETTERS));
    assert_eq!(game.message(), Some("Not enough letters"));
    assert!(game.guesses().is_empty());
    assert_eq!(game.current_input().len(), 3);
}

#[test]
fn lowercase_conversion_touches_only_capitals() {
    assert_eq!(to_lower('Q'), 'q');
    assert_eq!(to_lower('q'), 'q');
    assert_eq!(to_lower('!'), '!');
}

#[test]
fn word_lists_are_trimmed_filtered_sorted_and_unique() {
    let words = parse_word_list("  zebra\nhello\n apple \nhello\nabc\nHeLLo\nw\u{f6}rld\nabcdef\n\tmango\r\n");
    assert_eq!(words, vec![word("apple"), word("hello"), word("mango"), word("zebra")]);
    assert!(parse_word_list("").is_empty());
}

#[test]
fn builtin_list_is_sorted_without_repeats() {
    let words = word_list();
    for pair in words.windows(2) {
        assert!(pair[0] < pair[1]);
    }
    assert!(is_listed_word(&words[0]));
    assert!(is_listed_word(&words[words.len() - 1]));
    assert!(!is_listed_word(&word("zzzzz")));
}

#[test]
fn grid_shows_marked_guesses_then_typed_letters() {
    let mut game = WordleGame::with_seed(3);
    let target = game.target();
    let w = word_list().into_iter().find(|w| *w != target).unwrap();
    type_word(&mut game, &w);
    game.handle_key_event(KeyInput::press(Key::Char('X')));
    let marks = evaluate(&w, &target);
    assert_eq!(game.square_at(0, 0), Square::Marked(w[0], marks[0]));
    assert_eq!(game.square_at(0, 4), Square::Marked(w[4], marks[4]));
    assert_eq!(game.square_at(1, 0), Square::Typed('x'));
    assert_eq!(game.square_at(1, 1), Square::Blank);
    assert_eq!(game.square_at(2, 0), Square::Blank);
}

#[test]
fn sorted_lists_are_searched_by_halving() {
    let words = vec![word("apple"), word("hello"), word("mango"), word("zebra")];
    assert!(contains_word(&words, &word("apple")));
    assert!(contains_word(&words, &word("zebra")));
    assert!(contains_word(&words, &word("mango")));
    assert!(!contains_word(&words, &word("banjo")));
    assert!(!contains_word(&words, &word("zzzzz")));
    assert!(!contains_word(&Vec::new(), &word("apple")));
}
