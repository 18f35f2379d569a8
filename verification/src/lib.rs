//! Game logic for a small collection of terminal mini-games: Connect 4 with a
//! minimax opponent, Snake, Tetris and Wordle, the whole-number decisions
//! of Subway Surfer and Flappy Bird, together with the deterministic
//! random-number generators the games share. Rendering, timing and terminal
//! input live outside this crate; the games here are driven through plain
//! values (keys, elapsed times) and expose their state for drawing.

pub mod rng;
pub mod clock;
pub mod input;
pub mod connect4;
pub mod snake;
pub mod tetris;
pub mod wordlist;
pub mod wordle;
pub mod subway;
pub mod flappy;
