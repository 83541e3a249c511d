use rusdle::game::{GameState, SubmitOutcome};
use rusdle::tiles::{GameStatus, TileState};
use rusdle::tiles::TileState::{Absent, Correct, Present};
use rusdle::words::WordList;

fn words() -> WordList {
    WordList::from_texts("crane\nslate\nbrick", "adieu\nspeed\nabide\nnacre\ncrank\nfuzzy")
}

fn type_word(g: &mut GameState, w: &str) {
    for c in w.chars() {
        g.type_letter(c);
    }
}

fn row_text(g: &GameState, r: usize) -> String {
    g.guesses[r].iter().map(|t| t.ch).collect()
}

#[test]
fn new_game_is_blank() {
    let g = GameState::new(0, &words());
    assert_eq!(g.answer, "crane");
    assert_eq!(g.guesses.len(), 6);
    assert!(g.guesses.iter().all(|r| r.iter().all(|t| t.ch == ' ' && t.state == TileState::Empty)));
    assert_eq!(g.current_row, 0);
    assert_eq!(g.current_input, "");
    assert_eq!(g.status, GameStatus::Playing);
    assert!(g.message.is_none());
    assert!(g.deferred_message.is_none());
    assert!(g.keyboard.is_empty());
}

#[test]
fn seed_picks_the_answer() {
    assert_eq!(GameState::new(1, &words()).answer, "slate");
    assert_eq!(GameState::new(5, &words()).answer, "brick");
}

#[test]
fn typing_lowercases_and_shows_on_the_row() {
    let mut g = GameState::new(0, &words());
    type_word(&mut g, "CrA");
    assert_eq!(g.current_input, "cra");
    assert_eq!(row_text(&g, 0), "cra  ");
    assert_eq!(g.guesses[0][0].state, TileState::Typing);
    assert_eq!(g.guesses[0][3].state, TileState::Empty);
}

#[test]
fn typing_stops_at_five_letters() {
    let mut g = GameState::new(0, &words());
    type_word(&mut g, "cranes");
    assert_eq!(g.current_input, "crane");
    assert_eq!(row_text(&g, 0), "crane");
}

#[test]
fn delete_undoes_type() {
    let mut g = GameState::new(0, &words());
    type_word(&mut g, "cr");
    let before_input = g.current_input.clone();
    let before_row: Vec<(char, TileState)> = g.guesses[0].iter().map(|t| (t.ch, t.state)).collect();
    g.type_letter('x');
    g.delete_letter();
    assert_eq!(g.current_input, before_input);
    let after_row: Vec<(char, TileState)> = g.guesses[0].iter().map(|t| (t.ch, t.state)).collect();
    assert_eq!(after_row, before_row);
}

#[test]
fn delete_on_empty_input_does_nothing() {
    let mut g = GameState::new(0, &words());
    g.delete_letter();
    assert_eq!(g.current_input, "");
    assert_eq!(row_text(&g, 0), "     ");
}

#[test]
fn short_word_is_refused() {
    let mut g = GameState::new(0, &words());
    type_word(&mut g, "cra");
    assert_eq!(g.submit_guess(&words()), SubmitOutcome::NotEnoughLetters);
    assert_eq!(g.message.as_deref(), Some("Not enough letters"));
    assert_eq!(g.current_row, 0);
    assert_eq!(g.current_input, "cra");
}

#[test]
fn unknown_word_is_refused() {
    let mut g = GameState::new(0, &words());
    type_word(&mut g, "qwert");
    assert_eq!(g.submit_guess(&words()), SubmitOutcome::NotInWordList);
    assert_eq!(g.message.as_deref(), Some("Not in word list"));
    assert_eq!(g.current_row, 0);
}

#[test]
fn accepted_guess_is_scored_and_colours_keys() {
    let mut g = GameState::new(0, &words());
    type_word(&mut g, "nacre");
    assert_eq!(g.submit_guess(&words()), SubmitOutcome::Accepted);
    assert_eq!(g.current_row, 1);
    assert_eq!(g.current_input, "");
    assert_eq!(g.status, GameStatus::Playing);
    let states: Vec<TileState> = g.guesses[0].iter().map(|t| t.state).collect();
    assert_eq!(states, vec![Present, Present, Present, Present, Correct]);
    assert_eq!(g.keyboard_state('e'), Some(Correct));
    assert_eq!(g.keyboard_state('n'), Some(Present));
    assert_eq!(g.keyboard_state('z'), None);
    // a later gray or yellow never downgrades a key
    type_word(&mut g, "fuzzy");
    g.submit_guess(&words());
    assert_eq!(g.keyboard_state('f'), Some(Absent));
    type_word(&mut g, "speed");
    g.submit_guess(&words());
    assert_eq!(g.keyboard_state('e'), Some(Correct));
}

#[test]
fn winning_defers_the_message() {
    let mut g = GameState::new(0, &words());
    type_word(&mut g, "crane");
    assert_eq!(g.submit_guess(&words()), SubmitOutcome::Accepted);
    assert_eq!(g.status, GameStatus::Won);
    assert_eq!(g.deferred_message.as_deref(), Some("Genius!"));
    // the game is over: nothing more is taken
    type_word(&mut g, "s");
    assert_eq!(g.current_input, "");
    assert_eq!(g.submit_guess(&words()), SubmitOutcome::Ignored);
}

#[test]
fn win_message_depends_on_rows_used() {
    let expected = ["Genius!", "Magnificent!", "Impressive!", "Splendid!", "Great!", "Phew!"];
    for (misses, msg) in expected.iter().enumerate() {
        let mut g = GameState::new(0, &words());
        for _ in 0..misses {
            type_word(&mut g, "fuzzy");
            g.submit_guess(&words());
        }
        type_word(&mut g, "crane");
        g.submit_guess(&words());
        assert_eq!(g.status, GameStatus::Won);
        assert_eq!(g.deferred_message.as_deref(), Some(*msg));
    }
}

#[test]
fn six_misses_lose_with_the_answer_shown() {
    let mut g = GameState::new(2, &words());
    for _ in 0..6 {
        type_word(&mut g, "fuzzy");
        assert_eq!(g.submit_guess(&words()), SubmitOutcome::Accepted);
    }
    assert_eq!(g.status, GameStatus::Lost);
    assert_eq!(g.current_row, 6);
    assert_eq!(g.deferred_message.as_deref(), Some("BRICK"));
}

#[test]
fn reset_starts_a_new_game() {
    let mut g = GameState::new(0, &words());
    type_word(&mut g, "crane");
    g.submit_guess(&words());
    g.reset(1, &words());
    assert_eq!(g.answer, "slate");
    assert_eq!(g.status, GameStatus::Playing);
    assert_eq!(g.current_row, 0);
    assert!(g.keyboard.is_empty());
}

#[test]
fn first_guess_word_is_read_from_the_board() {
    let mut g = GameState::new(0, &words());
    assert_eq!(g.first_guess_word(), None);
    type_word(&mut g, "adieu");
    g.submit_guess(&words());
    assert_eq!(g.first_guess_word().as_deref(), Some("adieu"));
}

fn blank_game(answer: &str, row: usize, input: &str) -> GameState {
    GameState {
        answer: answer.to_string(),
        guesses: (0..6).map(|_| Default::default()).collect(),
        current_row: row,
        current_input: input.to_string(),
        status: GameStatus::Playing,
        message: None,
        deferred_message: None,
        keyboard: Vec::new(),
    }
}

#[test]
fn submit_scores_a_word_typed_over_a_blank_row() {
    let mut g = blank_game("crane", 0, "creep");
    let w = WordList::from_texts("crane", "creep");
    assert_eq!(g.submit_guess(&w), SubmitOutcome::Accepted);
    let states: Vec<TileState> = g.guesses[0].iter().map(|t| t.state).collect();
    assert_eq!(states, vec![Correct, Correct, Present, Absent, Absent]);
    assert_eq!(g.keyboard_state('c'), Some(Correct));
    assert_eq!(g.keyboard_state('r'), Some(Correct));
    assert_eq!(g.keyboard_state('e'), Some(Present));
    assert_eq!(g.keyboard_state('p'), Some(Absent));
    assert_eq!(g.keyboard.len(), 4);
    assert_eq!(g.current_row, 1);
    assert_eq!(g.current_input, "");
    assert_eq!(g.status, GameStatus::Playing);
}

#[test]
fn a_win_on_the_last_row_is_a_win() {
    let mut g = blank_game("crane", 5, "crane");
    assert_eq!(g.submit_guess(&words()), SubmitOutcome::Accepted);
    assert_eq!(g.status, GameStatus::Won);
    assert_eq!(g.deferred_message.as_deref(), Some("Phew!"));
    assert_eq!(g.current_row, 6);
    assert!(g.guesses[5].iter().all(|t| t.state == Correct));
}

#[test]
fn a_miss_on_the_last_row_loses() {
    let mut g = blank_game("crane", 5, "speed");
    assert_eq!(g.submit_guess(&words()), SubmitOutcome::Accepted);
    assert_eq!(g.status, GameStatus::Lost);
    assert_eq!(g.deferred_message.as_deref(), Some("CRANE"));
    assert_eq!(g.current_row, 6);
    assert_eq!(g.current_input, "");
}

#[test]
fn every_possible_answer_is_accepted() {
    let w = words();
    for seed in 0..20u64 {
        let a = rusdle::words::random_answer(&w, seed);
        assert!(rusdle::words::is_valid_word(&w, a));
    }
}
