use rusdle::scoring::evaluate_guess;
use rusdle::tiles::{Tile, TileState};

fn states(row: &[Tile; 5]) -> Vec<TileState> {
    row.iter().map(|t| t.state).collect()
}

fn letters(row: &[Tile; 5]) -> String {
    row.iter().map(|t| t.ch).collect()
}

use TileState::{Absent as A, Correct as C, Present as P};

#[test]
fn exact_guess_is_all_green() {
    let row = evaluate_guess("crane", "crane");
    assert_eq!(states(&row), vec![C, C, C, C, C]);
    assert_eq!(letters(&row), "crane");
}

#[test]
fn no_common_letters_is_all_gray() {
    let row = evaluate_guess("fuzzy", "crane");
    assert_eq!(states(&row), vec![A, A, A, A, A]);
}

#[test]
fn misplaced_letters_are_yellow() {
    let row = evaluate_guess("nacre", "crane");
    assert_eq!(states(&row), vec![P, P, P, P, C]);
}

#[test]
fn repeated_guess_letter_uses_up_the_answer_copy() {
    // one 'e' left over in the answer: the first extra 'e' is yellow, the next gray
    let row = evaluate_guess("speed", "abide");
    assert_eq!(states(&row), vec![A, A, P, A, P]);
}

#[test]
fn green_takes_precedence_over_an_earlier_yellow() {
    // the only 'l' of the answer is matched in place, so the earlier 'l' is gray
    let row = evaluate_guess("lolly", "world");
    assert_eq!(states(&row), vec![A, C, A, C, A]);
}

#[test]
fn two_copies_in_the_answer_allow_two_yellows() {
    let row = evaluate_guess("eerie", "geese");
    // e e r i e  vs  g e e s e : pos1 green, pos4 green, pos0 'e' yellow (one spare 'e' at 2)
    assert_eq!(states(&row), vec![P, C, A, A, C]);
}

#[test]
fn only_the_first_five_letters_count() {
    let row = evaluate_guess("cranes", "cranky");
    assert_eq!(states(&row), vec![C, C, C, C, A]);
    assert_eq!(letters(&row), "crane");
}

#[test]
fn coloured_count_per_letter_is_the_smaller_count() {
    // law: per letter, green + yellow tiles = min(count in guess, count in answer)
    let cases = [("speed", "abide"), ("lolly", "world"), ("eerie", "geese"), ("aaaaa", "banal")];
    for (g, a) in cases {
        let row = evaluate_guess(g, a);
        for c in 'a'..='z' {
            let coloured = row
                .iter()
                .filter(|t| t.ch == c && matches!(t.state, TileState::Correct | TileState::Present))
                .count();
            let in_guess = g.chars().filter(|&x| x == c).count();
            let in_answer = a.chars().filter(|&x| x == c).count();
            assert_eq!(coloured, in_guess.min(in_answer), "{} vs {} letter {}", g, a, c);
        }
    }
}

#[test]
fn all_green_exactly_when_words_match() {
    for (g, a, same) in [("crane", "crane", true), ("crane", "crank", false), ("abcde", "edcba", false)] {
        let row = evaluate_guess(g, a);
        assert_eq!(row.iter().all(|t| t.state == TileState::Correct), same);
    }
}

#[test]
fn tile_default_is_blank() {
    let t = Tile::default();
    assert_eq!(t.ch, ' ');
    assert_eq!(t.state, TileState::Empty);
}
