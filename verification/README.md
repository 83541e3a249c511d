# Rusdle

A Wordle-style word game: guess the hidden five-letter word in six tries.
Each guess colours its letters green (right place), yellow (in the word,
elsewhere) or gray (not in the word, or no copies left), and the on-screen
keyboard remembers the best colour each letter has shown. Players keep
profiles with statistics: games, wins, streaks, guess distribution, fastest
win, time played and favourite first word.

## Layout

- `src/` — the game's logic, verified with Verus:
  - `text.rs`: UTF-8 byte lengths, line splitting, ASCII lower-casing,
    decimal rendering, and the few string operations taken from `std`;
  - `words.rs`: the answer and guess lists built from their text, word
    lookup and answer selection;
  - `tiles.rs`: tiles, their colours and the game status;
  - `scoring.rs`: colouring a guess against the answer, with the laws of
    the colouring (all green exactly for the right word; per letter, as many
    coloured tiles as the smaller count in guess and answer);
  - `keyboard.rs`: the keyboard colours and how a row upgrades them;
  - `game.rs`: a game — typing, deleting, submitting, winning and losing;
  - `stats.rs`: statistics, profiles and the profile manager.
- `tests/` — tests of the library on concrete values.
- `app/` — the desktop program (egui/eframe): drawing, input, animation,
  the toast timer, reading the word lists (`answers.txt` and `valid.txt`
  in `$RUSDLE_WORDS_DIR` or `assets/words`), and saving profiles as JSON.
