use rusdle::words::{is_valid_word, random_answer, WordList};

fn sample() -> WordList {
    WordList::from_texts("crane\nslate\r\nab\ntoolong\nbrick", "xylyl\nzebra\n\nqwe\n")
}

#[test]
fn only_five_byte_lines_are_words() {
    let w = sample();
    assert_eq!(w.answers, vec!["crane".to_string(), "slate".to_string(), "brick".to_string()]);
    assert_eq!(
        w.valid,
        vec![
            "crane".to_string(),
            "slate".to_string(),
            "brick".to_string(),
            "xylyl".to_string(),
            "zebra".to_string()
        ]
    );
}

#[test]
fn carriage_return_before_newline_is_dropped() {
    let w = WordList::from_texts("crane\r\nslate\r\n", "");
    assert_eq!(w.answers, vec!["crane".to_string(), "slate".to_string()]);
}

#[test]
fn trailing_carriage_return_without_newline_is_kept() {
    // "abcd\r" is five bytes: the last line keeps its '\r' as `lines` does
    let w = WordList::from_texts("crane\nabcd\r", "");
    assert_eq!(w.answers, vec!["crane".to_string(), "abcd\r".to_string()]);
}

#[test]
fn length_is_counted_in_bytes() {
    // "café" has four characters but five bytes
    let w = WordList::from_texts("café\ncafés\n", "");
    assert_eq!(w.answers, vec!["café".to_string()]);
}

#[test]
fn valid_words_include_answers_and_extra_guesses() {
    let w = sample();
    assert!(is_valid_word(&w, "crane"));
    assert!(is_valid_word(&w, "zebra"));
    assert!(!is_valid_word(&w, "ab"));
    assert!(!is_valid_word(&w, "toolo"));
    assert!(!is_valid_word(&w, "CRANE"));
}

#[test]
fn random_answer_indexes_by_seed() {
    let w = sample();
    assert_eq!(random_answer(&w, 0), "crane");
    assert_eq!(random_answer(&w, 1), "slate");
    assert_eq!(random_answer(&w, 2), "brick");
    assert_eq!(random_answer(&w, 3), "crane");
    assert_eq!(random_answer(&w, 10), "slate");
}

#[test]
fn every_answer_is_a_valid_guess() {
    let w = sample();
    for a in &w.answers {
        assert!(is_valid_word(&w, a));
        assert_eq!(a.len(), 5);
    }
}
