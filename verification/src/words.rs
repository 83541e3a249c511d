//! The word lists: the answers a game can pick, and every word a guess may be.
use vstd::prelude::*;

use crate::text::{byte_len, lines, lines_of_byte_len, string_views, to_owned_string, with_byte_len};
use crate::WORD_LENGTH;

verus! {

/// The five-byte lines of a word-list text, in order.
pub open spec fn list_words(text: Seq<char>) -> Seq<Seq<char>> {
    with_byte_len(lines(text), WORD_LENGTH as nat)
}

/// The words of the game: `answers` holds the possible answers, `valid`
/// every word accepted as a guess (the answers first, then the other
/// allowed guesses).
pub struct WordList {
    pub answers: Vec<String>,
    pub valid: Vec<String>,
}

impl WordList {
    /// The possible answers.
    pub open spec fn answer_words(&self) -> Seq<Seq<char>> {
        string_views(self.answers@)
    }

    /// The words accepted as guesses.
    pub open spec fn valid_words(&self) -> Seq<Seq<char>> {
        string_views(self.valid@)
    }

    /// Every answer is also accepted as a guess.
    pub open spec fn wf(&self) -> bool {
        forall|i: int|
            0 <= i < self.answer_words().len() ==> self.valid_words().contains(
                #[trigger] self.answer_words()[i],
            )
    }

    /// Builds the word lists from the text of the answers list and the text
    /// of the list of further allowed guesses, one word per line. Only lines
    /// of exactly five bytes are kept.
    pub fn from_texts(answers_text: &str, valid_text: &str) -> (w: WordList)
        ensures
            w.answer_words() == list_words(answers_text@),
            w.valid_words() == list_words(answers_text@) + list_words(valid_text@),
            w.wf(),
    {
        let w = WordList { answers: answers(answers_text), valid: valid_set(answers_text, valid_text) };
        assert forall|i: int| 0 <= i < w.answer_words().len() implies w.valid_words().contains(
            #[trigger] w.answer_words()[i],
        ) by {
            lemma_answers_are_valid(answers_text@, valid_text@, i);
        }
        w
    }
}

/// The answers list: the five-byte lines of its text.
fn answers(answers_text: &str) -> (list: Vec<String>)
    ensures
        string_views(list@) == list_words(answers_text@),
{
    lines_of_byte_len(answers_text, WORD_LENGTH)
}

/// Every allowed guess: the five-byte lines of the answers text, then
/// those of the text of further allowed guesses.
fn valid_set(answers_text: &str, valid_text: &str) -> (set: Vec<String>)
    ensures
        string_views(set@) == list_words(answers_text@) + list_words(valid_text@),
{
    let mut set = lines_of_byte_len(answers_text, WORD_LENGTH);
    let mut more = lines_of_byte_len(valid_text, WORD_LENGTH);
    let ghost first = set@;
    let ghost second = more@;
    set.append(&mut more);
    assert(string_views(set@) =~= string_views(first) + string_views(second));
    set
}

/// Whether `word` is accepted as a guess.
pub fn is_valid_word(words: &WordList, word: &str) -> (valid: bool)
    ensures
        valid == words.valid_words().contains(word@),
{
    let w = to_owned_string(word);
    let mut i: usize = 0;
    while i < words.valid.len()
        invariant
            w@ == word@,
            i <= words.valid.len(),
            forall|j: int| 0 <= j < i ==> #[trigger] words.valid@[j]@ != word@,
        decreases words.valid.len() - i,
    {
        if words.valid[i] == w {
            assert(words.valid_words()[i as int] == word@);
            return true;
        }
        i = i + 1;
    }
    assert forall|j: int| 0 <= j < words.valid_words().len() implies #[trigger] words.valid_words()[j]
        != word@ by {
        assert(words.valid@[j]@ != word@);
    }
    false
}

/// The answer a game started with `seed` plays: the answers list indexed
/// by the seed (as a `usize`) modulo the list's length.
pub open spec fn answer_index(words: &WordList, seed: u64) -> int {
    (seed as usize) as int % words.answers@.len() as int
}

/// Picks the answer for a game from `seed`.
pub fn random_answer(words: &WordList, seed: u64) -> (answer: &str)
    requires
        words.answers@.len() > 0,
    ensures
        answer@ == words.answer_words()[answer_index(words, seed)],
        seed <= usize::MAX ==> answer@ == words.answer_words()[seed as int
            % words.answer_words().len() as int],
{
    proof {
        if seed <= usize::MAX {
            lemma_answer_index(words, seed);
        }
    }
    let list = &words.answers;
    let i = (seed as usize) % list.len();
    list[i].as_str()
}

/// Every entry kept by `with_byte_len` has that byte length.
proof fn lemma_with_byte_len_all(ls: Seq<Seq<char>>, n: nat)
    ensures
        forall|i: int| 0 <= i < with_byte_len(ls, n).len() ==> byte_len(#[trigger] with_byte_len(ls, n)[i]) == n,
    decreases ls.len(),
{
    if ls.len() > 0 {
        lemma_with_byte_len_all(ls.drop_last(), n);
        let rest = with_byte_len(ls.drop_last(), n);
        assert forall|i: int| 0 <= i < with_byte_len(ls, n).len() implies byte_len(
            #[trigger] with_byte_len(ls, n)[i],
        ) == n by {
            if i < rest.len() {
                assert(with_byte_len(ls, n)[i] == rest[i]);
            }
        }
    }
}

/// Every word taken from a list is five bytes long.
pub proof fn lemma_list_words_five_bytes(text: Seq<char>)
    ensures
        forall|i: int| 0 <= i < list_words(text).len() ==> byte_len(#[trigger] list_words(text)[i]) == WORD_LENGTH,
{
    lemma_with_byte_len_all(lines(text), WORD_LENGTH as nat);
}

/// Every answer is also accepted as a guess.
pub proof fn lemma_answers_are_valid(answers_text: Seq<char>, valid_text: Seq<char>, i: int)
    requires
        0 <= i < list_words(answers_text).len(),
    ensures
        (list_words(answers_text) + list_words(valid_text)).contains(list_words(answers_text)[i]),
{
    assert((list_words(answers_text) + list_words(valid_text))[i] == list_words(answers_text)[i]);
}

/// The answer picked by a seed that fits a `usize` is the seed modulo the
/// number of answers, so every answer can be picked: answer `i` by the seed
/// `i`, and again by `i` plus any multiple of the number of answers.
pub proof fn lemma_answer_index(words: &WordList, seed: u64)
    requires
        words.answers@.len() > 0,
        seed <= usize::MAX,
    ensures
        answer_index(words, seed) == seed as int % words.answers@.len() as int,
        0 <= answer_index(words, seed) < words.answers@.len(),
        seed < words.answers@.len() ==> answer_index(words, seed) == seed,
{
    if seed < words.answers@.len() {
        vstd::arithmetic::div_mod::lemma_small_mod(seed as nat, words.answers@.len());
    }
}

/// Every answer is picked by some seed: answer `i` by the seed
/// `i + k * n` for every `k` that keeps it within a `usize`, `n` being the
/// number of answers.
pub proof fn lemma_every_answer_reachable(words: &WordList, i: nat, k: nat)
    requires
        i < words.answers@.len(),
        i + k * words.answers@.len() <= usize::MAX,
    ensures
        answer_index(words, (i + k * words.answers@.len()) as u64) == i,
{
    let n = words.answers@.len() as int;
    let seed = i + k * n;
    assert(seed <= u64::MAX);
    lemma_answer_index(words, seed as u64);
    assert((i + k * n) % n == i) by (nonlinear_arith)
        requires
            0 <= i < n,
            k >= 0,
    {
        vstd::arithmetic::div_mod::lemma_mod_multiples_vanish(k as int, i as int, n);
        vstd::arithmetic::div_mod::lemma_small_mod(i, n as nat);
    }
}

/// Whatever the seed, the answer picked is accepted as a guess.
pub proof fn lemma_random_answer_is_valid(words: &WordList, seed: u64)
    requires
        words.wf(),
        words.answers@.len() > 0,
    ensures
        words.valid_words().contains(words.answer_words()[answer_index(words, seed)]),
{
    assert(0 <= answer_index(words, seed) < words.answer_words().len());
}

} // verus!
