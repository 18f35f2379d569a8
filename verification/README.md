# tui_games

Terminal mini-games — Connect 4 against a minimax opponent, Snake, Tetris,
Wordle, Flappy Bird and Subway Surfer — with their game logic verified by
Verus.

- `src/` is the verified library: board models, moves, scoring, the
  alpha-beta search, line clearing, guess marking, the word-list parser, the
  random-number generators, and what each board cell shows. Every public
  function carries a `requires`/`ensures` contract; the proof functions named
  `lemma_*` state properties that hold across calls (a piece lands on the
  lowest free row, the search equals plain minimax, a hard drop rests where
  the outline shows, and so on).
- `app/` is the terminal front end on `crossterm` and `ratatui`: key
  conversion, wall-clock timers, drawing, and the two games whose motion is
  simulated in floating point (Flappy Bird, Subway Surfer), which take their
  key handling, lanes and spawns from the library.
- `tests/` runs the library on concrete games.
