//! One game: the hidden answer, the board of guesses, the word being typed,
//! and the keyboard colours.
use vstd::prelude::*;

use crate::keyboard::{
    is_key_colour, key_after, key_lookup, keys_distinct, lemma_key_is_highest, lookup_key, play_row,
    shows_highest,
};
use crate::scoring::{evaluate_guess, scored_tile};
use crate::text::{
    ascii_lower, byte_len, byte_len_capped, chars_of, lemma_byte_len_drop_last, lemma_byte_len_push,
    str_to_uppercase, string_pop, string_push, to_ascii_lower, to_owned_string, to_uppercase,
};
use crate::tiles::{GameStatus, Tile, TileState};
use crate::words::{answer_index, is_valid_word, random_answer, WordList};
use crate::{MAX_GUESSES, WORD_LENGTH};

verus! {

/// What a submitted guess led to.
#[derive(Clone, Copy, PartialEq, Eq, Debug, Structural)]
pub enum SubmitOutcome {
    /// The game is over; nothing happened.
    Ignored,
    /// The typed word is not five bytes long; the message says so.
    NotEnoughLetters,
    /// The typed word is not in the word list; the message says so.
    NotInWordList,
    /// The guess was scored onto the board and the next row began.
    Accepted,
}

/// The state of one game.
pub struct GameState {
    pub answer: String,
    /// One row of tiles per guess, `MAX_GUESSES` rows.
    pub guesses: Vec<[Tile; WORD_LENGTH]>,
    /// The row the next guess goes into.
    pub current_row: usize,
    /// The letters typed so far for the current guess.
    pub current_input: String,
    pub status: GameStatus,
    /// The message to show the player, if any.
    pub message: Option<String>,
    /// Win/loss message held back until the flip animation finishes.
    pub deferred_message: Option<String>,
    /// Per-letter keyboard colour, each letter at most once.
    pub keyboard: Vec<(char, TileState)>,
}

/// The tile at position `i` of the row being typed: the `i`-th typed letter,
/// or a blank tile past the end of what was typed.
pub open spec fn typing_tile(input: Seq<char>, i: int) -> Tile {
    if i < input.len() {
        Tile { ch: input[i], state: TileState::Typing }
    } else {
        Tile::blank()
    }
}

/// The row showing the letters typed so far.
pub open spec fn typing_row(input: Seq<char>) -> Seq<Tile> {
    Seq::new(WORD_LENGTH as nat, |i: int| typing_tile(input, i))
}

/// A row of blank tiles.
pub open spec fn blank_row() -> Seq<Tile> {
    Seq::new(WORD_LENGTH as nat, |i: int| Tile::blank())
}

/// A blank row shows an empty typed word.
pub proof fn lemma_blank_row_is_empty_typing()
    ensures
        typing_row(Seq::<char>::empty()) == blank_row(),
{
    assert(typing_row(Seq::<char>::empty()) =~= blank_row());
}

/// The row a scored guess leaves on the board.
pub open spec fn scored_row(guess: Seq<char>, answer: Seq<char>) -> Seq<Tile> {
    Seq::new(WORD_LENGTH as nat, |i: int| scored_tile(guess, answer, i))
}

/// The message shown after a win in `rows` guesses.
pub open spec fn win_message(rows: int) -> Seq<char> {
    if rows <= 1 {
        "Genius!"@
    } else if rows == 2 {
        "Magnificent!"@
    } else if rows == 3 {
        "Impressive!"@
    } else if rows == 4 {
        "Splendid!"@
    } else if rows == 5 {
        "Great!"@
    } else {
        "Phew!"@
    }
}

/// The views of the rows of a board.
pub open spec fn board_rows(guesses: Seq<[Tile; WORD_LENGTH]>) -> Seq<Seq<Tile>> {
    guesses.map_values(|r: [Tile; WORD_LENGTH]| r@)
}

impl GameState {
    /// The game's invariant: six rows on the board; the current row within
    /// them, and before the last one while the game is being played; a lost
    /// game used every row and a won game at least one; while playing, the
    /// current row shows the typed word; the rows after it are blank; the
    /// typed word is at most eight bytes (under five before its last
    /// letter); each key is recorded once.
    pub open spec fn wf(&self) -> bool {
        &&& self.playable()
        &&& self.guesses@.len() == MAX_GUESSES
        &&& self.current_row <= MAX_GUESSES
        &&& self.status == GameStatus::Playing ==> self.current_row < MAX_GUESSES
        &&& self.status == GameStatus::Lost ==> self.current_row == MAX_GUESSES
        &&& self.status == GameStatus::Won ==> self.current_row >= 1
        &&& self.status == GameStatus::Playing ==> self.rows()[self.current_row as int]
            == typing_row(self.current_input@)
        &&& forall|r: int| self.current_row < r < MAX_GUESSES ==> #[trigger] self.rows()[r]
            == blank_row()
        &&& byte_len(self.current_input@) <= 8
        &&& keys_distinct(self.keyboard@)
    }

    /// What playing a game needs: six rows on the board, the current row
    /// among them while the game is on, and each key recorded once.
    pub open spec fn playable(&self) -> bool {
        &&& self.guesses@.len() == MAX_GUESSES
        &&& self.status == GameStatus::Playing ==> self.current_row < MAX_GUESSES
        &&& keys_distinct(self.keyboard@)
    }

    /// The row count agrees with the status: the current row is on the
    /// board or just past it, a lost game used every row, and a won game at
    /// least one.
    pub open spec fn rows_consistent(&self) -> bool {
        &&& self.current_row <= MAX_GUESSES
        &&& self.status == GameStatus::Lost ==> self.current_row == MAX_GUESSES
        &&& self.status == GameStatus::Won ==> self.current_row >= 1
    }

    /// The rows of the board.
    pub open spec fn rows(&self) -> Seq<Seq<Tile>> {
        board_rows(self.guesses@)
    }

    /// The keyboard colour of `c`.
    pub open spec fn key(&self, c: char) -> Option<TileState> {
        key_lookup(self.keyboard@, c)
    }

    /// Whether scoring the typed word would need characters that are not
    /// there: the typed word is five bytes long and in the word list, but it
    /// or the answer has fewer than five characters.
    pub open spec fn guess_unscorable(&self, words: &WordList) -> bool {
        &&& self.status == GameStatus::Playing
        &&& byte_len(self.current_input@) == WORD_LENGTH
        &&& words.valid_words().contains(self.current_input@)
        &&& (self.current_input@.len() < WORD_LENGTH || self.answer@.len() < WORD_LENGTH)
    }

    /// A fresh game whose answer is picked from the answers list by `seed`.
    pub fn new(seed: u64, words: &WordList) -> (g: GameState)
        requires
            words.answers@.len() > 0,
        ensures
            g.wf(),
            g.answer@ == words.answer_words()[answer_index(words, seed)],
            forall|r: int| 0 <= r < MAX_GUESSES ==> #[trigger] g.rows()[r] == blank_row(),
            g.current_row == 0,
            g.current_input@ == Seq::<char>::empty(),
            g.status == GameStatus::Playing,
            g.message is None,
            g.deferred_message is None,
            g.keyboard@ == Seq::<(char, TileState)>::empty(),
    {
        let answer = to_owned_string(random_answer(words, seed));
        let mut guesses: Vec<[Tile; WORD_LENGTH]> = Vec::new();
        for r in 0..MAX_GUESSES
            invariant
                guesses@.len() == r,
                forall|q: int| 0 <= q < r ==> #[trigger] guesses@[q]@ == blank_row(),
        {
            let row = [Tile::default(), Tile::default(), Tile::default(), Tile::default(), Tile::default()];
            assert(row@ =~= blank_row());
            guesses.push(row);
        }
        let g = GameState {
            answer,
            guesses,
            current_row: 0,
            current_input: String::new(),
            status: GameStatus::Playing,
            message: None,
            deferred_message: None,
            keyboard: Vec::new(),
        };
        assert(byte_len(g.current_input@) == 0) by {
            assert(g.current_input@ =~= Seq::<char>::empty());
        }
        proof {
            lemma_blank_row_is_empty_typing();
            assert(g.rows()[0] == blank_row());
        }
        g
    }

    /// Starts over with a fresh game picked by `seed`.
    pub fn reset(&mut self, seed: u64, words: &WordList)
        requires
            words.answers@.len() > 0,
        ensures
            final(self).wf(),
            final(self).answer@ == words.answer_words()[answer_index(words, seed)],
            forall|r: int| 0 <= r < MAX_GUESSES ==> #[trigger] final(self).rows()[r] == blank_row(),
            final(self).current_row == 0,
            final(self).current_input@ == Seq::<char>::empty(),
            final(self).status == GameStatus::Playing,
            final(self).message is None,
            final(self).deferred_message is None,
            final(self).keyboard@ == Seq::<(char, TileState)>::empty(),
    {
        *self = GameState::new(seed, words);
    }

    /// The keyboard colour of `c`, if the letter has been played.
    pub fn keyboard_state(&self, c: char) -> (s: Option<TileState>)
        requires
            keys_distinct(self.keyboard@),
        ensures
            s == self.key(c),
    {
        lookup_key(&self.keyboard, c)
    }

    /// Types a letter (lower-cased) while the game is on and fewer than five
    /// bytes are typed; the current row then shows the typed word.
    pub fn type_letter(&mut self, ch: char)
        requires
            old(self).playable(),
        ensures
            final(self).playable(),
            old(self).wf() ==> final(self).wf(),
            old(self).status != GameStatus::Playing || byte_len(old(self).current_input@)
                >= WORD_LENGTH ==> *final(self) == *old(self),
            old(self).status == GameStatus::Playing && byte_len(old(self).current_input@)
                < WORD_LENGTH ==> {
                let typed = old(self).current_input@.push(ascii_lower(ch));
                &&& final(self).current_input@ == typed
                &&& final(self).rows() == old(self).rows().update(
                    old(self).current_row as int,
                    typing_row(typed),
                )
                &&& final(self).answer == old(self).answer
                &&& final(self).current_row == old(self).current_row
                &&& final(self).status == old(self).status
                &&& final(self).message == old(self).message
                &&& final(self).deferred_message == old(self).deferred_message
                &&& final(self).keyboard == old(self).keyboard
            },
    {
        if self.status != GameStatus::Playing {
            return;
        }
        if byte_len_capped(self.current_input.as_str(), WORD_LENGTH) < WORD_LENGTH {
            proof {
                lemma_byte_len_push(self.current_input@, ascii_lower(ch));
            }
            let c = to_ascii_lower(ch);
            string_push(&mut self.current_input, c);
            self.update_current_row_display();
        }
    }

    /// Deletes the last typed letter while the game is on; the current row
    /// then shows the typed word.
    pub fn delete_letter(&mut self)
        requires
            old(self).playable(),
        ensures
            final(self).playable(),
            old(self).wf() ==> final(self).wf(),
            old(self).status != GameStatus::Playing || old(self).current_input@.len() == 0
                ==> *final(self) == *old(self),
            old(self).status == GameStatus::Playing && old(self).current_input@.len() > 0 ==> {
                let typed = old(self).current_input@.drop_last();
                &&& final(self).current_input@ == typed
                &&& final(self).rows() == old(self).rows().update(
                    old(self).current_row as int,
                    typing_row(typed),
                )
                &&& final(self).answer == old(self).answer
                &&& final(self).current_row == old(self).current_row
                &&& final(self).status == old(self).status
                &&& final(self).message == old(self).message
                &&& final(self).deferred_message == old(self).deferred_message
                &&& final(self).keyboard == old(self).keyboard
            },
    {
        if self.status != GameStatus::Playing {
            return;
        }
        if !self.current_input.as_str().is_empty() {
            proof {
                lemma_byte_len_drop_last(self.current_input@);
            }
            let _ = string_pop(&mut self.current_input);
            self.update_current_row_display();
        }
    }

    /// Shows the typed word on the current row, if there is one.
    fn update_current_row_display(&mut self)
        requires
            old(self).guesses@.len() == MAX_GUESSES,
            old(self).current_row < MAX_GUESSES,
        ensures
            final(self).rows() == old(self).rows().update(
                old(self).current_row as int,
                typing_row(old(self).current_input@),
            ),
            final(self).guesses@.len() == MAX_GUESSES,
            final(self).answer == old(self).answer,
            final(self).current_row == old(self).current_row,
            final(self).current_input == old(self).current_input,
            final(self).status == old(self).status,
            final(self).message == old(self).message,
            final(self).deferred_message == old(self).deferred_message,
            final(self).keyboard == old(self).keyboard,
    {
        if self.current_row >= MAX_GUESSES {
            return;
        }
        let typed = chars_of(self.current_input.as_str());
        let n = typed.len();
        let t0 = if 0 < n { Tile::new(typed[0], TileState::Typing) } else { Tile::default() };
        let t1 = if 1 < n { Tile::new(typed[1], TileState::Typing) } else { Tile::default() };
        let t2 = if 2 < n { Tile::new(typed[2], TileState::Typing) } else { Tile::default() };
        let t3 = if 3 < n { Tile::new(typed[3], TileState::Typing) } else { Tile::default() };
        let t4 = if 4 < n { Tile::new(typed[4], TileState::Typing) } else { Tile::default() };
        let row = [t0, t1, t2, t3, t4];
        assert(row@ =~= typing_row(self.current_input@));
        let ghost before = self.guesses@;
        self.guesses.set(self.current_row, row);
        assert(board_rows(self.guesses@) =~= board_rows(before).update(
            self.current_row as int,
            typing_row(self.current_input@),
        ));
    }

    /// Shows `msg` to the player.
    fn show_message(&mut self, msg: &str)
        ensures
            final(self).message matches Some(m) && m@ == msg@,
            final(self).answer == old(self).answer,
            final(self).guesses == old(self).guesses,
            final(self).current_row == old(self).current_row,
            final(self).current_input == old(self).current_input,
            final(self).status == old(self).status,
            final(self).deferred_message == old(self).deferred_message,
            final(self).keyboard == old(self).keyboard,
    {
        self.message = Some(to_owned_string(msg));
    }

    /// Submits the typed word. While the game is on: a word that is not five
    /// bytes long, or not in the word list, is refused with a message;
    /// otherwise it is scored onto the current row, the keyboard takes its
    /// colours, the next row begins, and the game is won (all green) or lost
    /// (no rows left), with the message for the end held back.
    pub fn submit_guess(&mut self, words: &WordList) -> (outcome: SubmitOutcome)
        requires
            old(self).playable(),
            !old(self).guess_unscorable(words),
        ensures
            final(self).playable(),
            old(self).wf() ==> final(self).wf(),
            old(self).rows_consistent() ==> final(self).rows_consistent(),
            final(self).answer == old(self).answer,
            old(self).status != GameStatus::Playing ==> outcome == SubmitOutcome::Ignored && *final(self) == *old(self),
            old(self).status == GameStatus::Playing && byte_len(old(self).current_input@)
                != WORD_LENGTH ==> {
                &&& outcome == SubmitOutcome::NotEnoughLetters
                &&& final(self).message matches Some(m) && m@ == "Not enough letters"@
                &&& final(self).guesses == old(self).guesses
                &&& final(self).current_row == old(self).current_row
                &&& final(self).current_input == old(self).current_input
                &&& final(self).status == old(self).status
                &&& final(self).deferred_message == old(self).deferred_message
                &&& final(self).keyboard == old(self).keyboard
            },
            old(self).status == GameStatus::Playing && byte_len(old(self).current_input@)
                == WORD_LENGTH && !words.valid_words().contains(old(self).current_input@) ==> {
                &&& outcome == SubmitOutcome::NotInWordList
                &&& final(self).message matches Some(m) && m@ == "Not in word list"@
                &&& final(self).guesses == old(self).guesses
                &&& final(self).current_row == old(self).current_row
                &&& final(self).current_input == old(self).current_input
                &&& final(self).status == old(self).status
                &&& final(self).deferred_message == old(self).deferred_message
                &&& final(self).keyboard == old(self).keyboard
            },
            old(self).status == GameStatus::Playing && byte_len(old(self).current_input@)
                == WORD_LENGTH && words.valid_words().contains(old(self).current_input@) ==> {
                let row = scored_row(old(self).current_input@, old(self).answer@);
                let won = old(self).current_input@.take(WORD_LENGTH as int) == old(self).answer@.take(WORD_LENGTH as int);
                let rows_used = old(self).current_row + 1;
                &&& outcome == SubmitOutcome::Accepted
                &&& final(self).rows() == old(self).rows().update(old(self).current_row as int, row)
                &&& forall|c: char| #[trigger]
                    final(self).key(c) == key_after(old(self).key(c), row, c, WORD_LENGTH as int)
                &&& final(self).current_row == rows_used
                &&& final(self).current_input@ == Seq::<char>::empty()
                &&& final(self).message == old(self).message
                &&& won ==> final(self).status == GameStatus::Won && (final(self).deferred_message matches Some(m) && m@ == win_message(rows_used))
                &&& !won && rows_used >= MAX_GUESSES ==> final(self).status == GameStatus::Lost && (
                final(self).deferred_message matches Some(m) && m@ == str_to_uppercase(
                    old(self).answer@,
                ))
                &&& !won && rows_used < MAX_GUESSES ==> final(self).status == GameStatus::Playing
                    && final(self).deferred_message == old(self).deferred_message
            },
    {
        if self.status != GameStatus::Playing {
            return SubmitOutcome::Ignored;
        }
        if byte_len_capped(self.current_input.as_str(), WORD_LENGTH + 1) != WORD_LENGTH {
            self.show_message("Not enough letters");
            return SubmitOutcome::NotEnoughLetters;
        }
        if !is_valid_word(words, self.current_input.as_str()) {
            self.show_message("Not in word list");
            return SubmitOutcome::NotInWordList;
        }
        let result = evaluate_guess(self.current_input.as_str(), self.answer.as_str());
        let ghost row = scored_row(self.current_input@, self.answer@);
        assert(result@ =~= row);
        let ghost before = self.guesses@;
        let ghost keys_before = self.keyboard@;
        self.guesses.set(self.current_row, result);
        assert(board_rows(self.guesses@) =~= board_rows(before).update(self.current_row as int, row));

        // Update keyboard state
        play_row(&mut self.keyboard, &result);

        let won = all_correct(&result);
        proof {
            crate::scoring::lemma_all_green_iff_same_word(self.current_input@, self.answer@);
            if won {
                assert forall|i: int| 0 <= i < WORD_LENGTH implies #[trigger] crate::scoring::scored_state(
                    self.current_input@,
                    self.answer@,
                    i,
                ) == TileState::Correct by {
                    assert(result@[i].state == TileState::Correct);
                    assert(result@[i] == scored_tile(self.current_input@, self.answer@, i));
                }
            } else {
                let i = choose|i: int| 0 <= i < WORD_LENGTH && result@[i].state != TileState::Correct;
                assert(result@[i] == scored_tile(self.current_input@, self.answer@, i));
            }
        }

        self.current_row = self.current_row + 1;
        self.current_input = String::new();
        assert(byte_len(self.current_input@) == 0) by {
            assert(self.current_input@ =~= Seq::<char>::empty());
        }
        proof {
            lemma_blank_row_is_empty_typing();
            if self.current_row < MAX_GUESSES && old(self).wf() {
                assert(self.rows()[self.current_row as int] == blank_row());
            }
        }

        if won {
            self.status = GameStatus::Won;
            let msg = win_message_text(self.current_row);
            // Defer so the toast appears after the flip animation finishes
            self.deferred_message = Some(msg);
        } else if self.current_row >= MAX_GUESSES {
            self.status = GameStatus::Lost;
            self.deferred_message = Some(to_uppercase(self.answer.as_str()));
        }
        SubmitOutcome::Accepted
    }

    /// The first guess of a finished or ongoing game, as it stands on the
    /// board: the letters of the first row, when at least one guess was
    /// submitted and those letters, without surrounding blanks, make five
    /// bytes.
    pub fn first_guess_word(&self) -> (w: Option<String>)
        requires
            self.playable(),
        ensures
            w is Some <==> self.current_row > 0 && byte_len(
                trim_blanks(row_letters(self.rows()[0])),
            ) == WORD_LENGTH,
            w matches Some(s) ==> s@ == row_letters(self.rows()[0]),
    {
        if self.current_row == 0 {
            return None;
        }
        let row = &self.guesses[0];
        let mut word = String::new();
        for i in 0..WORD_LENGTH
            invariant
                row@.len() == WORD_LENGTH,
                word@ == row_letters(row@).take(i as int),
        {
            let ghost before = word@;
            string_push(&mut word, row[i].ch);
            assert(word@ =~= row_letters(row@).take(i + 1));
        }
        assert(word@ =~= row_letters(row@));
        if trimmed_blanks_byte_len(word.as_str()) == WORD_LENGTH {
            Some(word)
        } else {
            None
        }
    }
}

/// The letters of a row of tiles.
pub open spec fn row_letters(row: Seq<Tile>) -> Seq<char> {
    row.map_values(|t: Tile| t.ch)
}

/// `s` without leading blanks.
pub open spec fn trim_leading_blanks(s: Seq<char>) -> Seq<char>
    decreases s.len(),
{
    if s.len() > 0 && s[0] == ' ' {
        trim_leading_blanks(s.drop_first())
    } else {
        s
    }
}

/// `s` without trailing blanks.
pub open spec fn trim_trailing_blanks(s: Seq<char>) -> Seq<char>
    decreases s.len(),
{
    if s.len() > 0 && s.last() == ' ' {
        trim_trailing_blanks(s.drop_last())
    } else {
        s
    }
}

/// `s` without leading and trailing blanks (what `str::trim_matches(' ')` returns).
pub open spec fn trim_blanks(s: Seq<char>) -> Seq<char> {
    trim_trailing_blanks(trim_leading_blanks(s))
}

/// The byte length of `s` without leading and trailing blanks, or six when
/// that is more than five.
fn trimmed_blanks_byte_len(s: &str) -> (n: usize)
    ensures
        n == WORD_LENGTH <==> byte_len(trim_blanks(s@)) == WORD_LENGTH,
{
    let chars = chars_of(s);
    let len = chars.len();
    let mut lo: usize = 0;
    assert(s@.subrange(0, len as int) =~= s@);
    while lo < len && chars[lo] == ' '
        invariant
            chars@ == s@,
            len == chars@.len(),
            lo <= len,
            trim_leading_blanks(s@) == trim_leading_blanks(s@.subrange(lo as int, len as int)),
        decreases len - lo,
    {
        assert(s@.subrange(lo as int, len as int).drop_first() =~= s@.subrange(lo + 1, len as int));
        lo = lo + 1;
    }
    let ghost lead = s@.subrange(lo as int, len as int);
    assert(trim_leading_blanks(s@) == lead);
    let mut hi: usize = len;
    while hi > lo && chars[hi - 1] == ' '
        invariant
            chars@ == s@,
            len == chars@.len(),
            lo <= hi <= len,
            lead == s@.subrange(lo as int, len as int),
            trim_trailing_blanks(lead) == trim_trailing_blanks(s@.subrange(lo as int, hi as int)),
        decreases hi - lo,
    {
        assert(s@.subrange(lo as int, hi as int).drop_last() =~= s@.subrange(lo as int, hi - 1));
        hi = hi - 1;
    }
    let ghost core = s@.subrange(lo as int, hi as int);
    assert(trim_blanks(s@) == core);
    // byte length of the core, capped at six
    let mut n: usize = 0;
    let mut i: usize = lo;
    while i < hi
        invariant
            chars@ == s@,
            len == chars@.len(),
            lo <= i <= hi <= len,
            n == if byte_len(s@.subrange(lo as int, i as int)) < 6 {
                byte_len(s@.subrange(lo as int, i as int))
            } else {
                6
            },
        decreases hi - i,
    {
        proof {
            lemma_byte_len_push(s@.subrange(lo as int, i as int), s@[i as int]);
            assert(s@.subrange(lo as int, i as int).push(s@[i as int]) =~= s@.subrange(
                lo as int,
                i + 1,
            ));
        }
        let w = crate::text::char_byte_width(chars[i]);
        if n + w < 6 {
            n = n + w;
        } else {
            n = 6;
        }
        i = i + 1;
    }
    n
}

/// Whether every tile of a row is green.
fn all_correct(row: &[Tile; WORD_LENGTH]) -> (b: bool)
    ensures
        b <==> forall|i: int| 0 <= i < WORD_LENGTH ==> #[trigger] row@[i].state == TileState::Correct,
{
    assert(row@.len() == WORD_LENGTH);
    for i in 0..WORD_LENGTH
        invariant
            row@.len() == WORD_LENGTH,
            forall|j: int| 0 <= j < i ==> #[trigger] row@[j].state == TileState::Correct,
    {
        if row[i].state != TileState::Correct {
            return false;
        }
    }
    true
}

/// The message for a win in `rows` guesses.
fn win_message_text(rows: usize) -> (m: String)
    ensures
        m@ == win_message(rows as int),
{
    if rows <= 1 {
        to_owned_string("Genius!")
    } else if rows == 2 {
        to_owned_string("Magnificent!")
    } else if rows == 3 {
        to_owned_string("Impressive!")
    } else if rows == 4 {
        to_owned_string("Splendid!")
    } else if rows == 5 {
        to_owned_string("Great!")
    } else {
        to_owned_string("Phew!")
    }
}

// ── Laws of a game ───────────────────────────────────────────────────────────

/// Deleting a letter right after typing it gives back the typed word, and
/// the row that showed it.
pub proof fn lemma_delete_undoes_type(rows: Seq<Seq<Tile>>, r: int, input: Seq<char>, c: char)
    requires
        0 <= r < rows.len(),
        rows[r] == typing_row(input),
    ensures
        input.push(ascii_lower(c)).drop_last() == input,
        rows.update(r, typing_row(input.push(ascii_lower(c)))).update(
            r,
            typing_row(input.push(ascii_lower(c)).drop_last()),
        ) == rows,
{
    assert(input.push(ascii_lower(c)).drop_last() =~= input);
    assert(rows.update(r, typing_row(input.push(ascii_lower(c)))).update(
        r,
        typing_row(input.push(ascii_lower(c)).drop_last()),
    ) =~= rows);
}

/// Every tile of a scored row is green, yellow or gray, so after a guess
/// each key shows the highest-ranked of its colours
/// (`keyboard::lemma_key_is_highest`).
pub proof fn lemma_scored_row_colours(guess: Seq<char>, answer: Seq<char>)
    ensures
        forall|i: int|
            0 <= i < WORD_LENGTH ==> is_key_colour(#[trigger] scored_row(guess, answer)[i].state),
{
}

/// After an accepted guess, each key shows the highest-ranked of its colour
/// before and the colours the guess gave its letter; a key is recorded
/// exactly when it was before or the guess has its letter
/// (`submit_guess` gives each key as `key_after` of the scored row).
pub proof fn lemma_submitted_keys(prev: Option<TileState>, guess: Seq<char>, answer: Seq<char>, c: char)
    ensures
        shows_highest(prev, scored_row(guess, answer), c, WORD_LENGTH as int),
{
    lemma_scored_row_colours(guess, answer);
    lemma_key_is_highest(prev, scored_row(guess, answer), c, WORD_LENGTH as int);
}

/// When the answer and every accepted word have at least five characters,
/// a typed word that is accepted can always be scored: submitting never
/// reads a missing character.
pub proof fn lemma_always_scorable(g: &GameState, words: &WordList)
    requires
        g.answer@.len() >= WORD_LENGTH,
        forall|i: int|
            0 <= i < words.valid_words().len() ==> (#[trigger] words.valid_words()[i]).len()
                >= WORD_LENGTH,
    ensures
        !g.guess_unscorable(words),
{
    if words.valid_words().contains(g.current_input@) {
        let i = choose|i: int|
            0 <= i < words.valid_words().len() && words.valid_words()[i] == g.current_input@;
        assert(words.valid_words()[i].len() >= WORD_LENGTH);
    }
}

} // verus!
