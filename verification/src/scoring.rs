//! Colouring a guess against the answer.
//!
//! A letter in the right place is green (`Correct`). The remaining letters of
//! the guess are then taken from left to right: each is yellow (`Present`)
//! while the answer still has an unmatched copy of that letter left over, and
//! gray (`Absent`) once those copies are used up.
use vstd::prelude::*;

use crate::text::chars_of;
use crate::tiles::{Tile, TileState};
use crate::WORD_LENGTH;

verus! {

broadcast use vstd::array::group_array_axioms;

/// Number of positions `j < k` where `x` holds `c` and `y` holds something else.
pub open spec fn unmatched(x: Seq<char>, y: Seq<char>, c: char, k: int) -> nat
    decreases k,
{
    if k <= 0 {
        0
    } else {
        unmatched(x, y, c, k - 1) + if x[k - 1] == c && x[k - 1] != y[k - 1] {
            1nat
        } else {
            0nat
        }
    }
}

/// Number of positions `j < k` where `x` holds `c`.
pub open spec fn occurrences(x: Seq<char>, c: char, k: int) -> nat
    decreases k,
{
    if k <= 0 {
        0
    } else {
        occurrences(x, c, k - 1) + if x[k - 1] == c {
            1nat
        } else {
            0nat
        }
    }
}

/// Number of positions `j < k` where `x` and `y` both hold `c`.
pub open spec fn matched(x: Seq<char>, y: Seq<char>, c: char, k: int) -> nat
    decreases k,
{
    if k <= 0 {
        0
    } else {
        matched(x, y, c, k - 1) + if x[k - 1] == c && y[k - 1] == c {
            1nat
        } else {
            0nat
        }
    }
}

/// The smaller of two counts.
pub open spec fn min_nat(a: nat, b: nat) -> nat {
    if a <= b {
        a
    } else {
        b
    }
}

/// The colour of position `i` of `guess` scored against `answer`: green when
/// the letters agree; otherwise yellow when fewer earlier non-green copies of
/// the letter are in the guess than there are non-green copies of it in the
/// answer; otherwise gray.
pub open spec fn scored_state(guess: Seq<char>, answer: Seq<char>, i: int) -> TileState {
    if guess[i] == answer[i] {
        TileState::Correct
    } else if unmatched(guess, answer, guess[i], i) < unmatched(
        answer,
        guess,
        guess[i],
        WORD_LENGTH as int,
    ) {
        TileState::Present
    } else {
        TileState::Absent
    }
}

/// The scored tile at position `i`.
pub open spec fn scored_tile(guess: Seq<char>, answer: Seq<char>, i: int) -> Tile {
    Tile { ch: guess[i], state: scored_state(guess, answer, i) }
}

/// Whether a tile counts toward a letter: green or yellow.
pub open spec fn is_coloured(s: TileState) -> bool {
    s == TileState::Correct || s == TileState::Present
}

/// Number of positions `i < k` of the scored guess that hold `c` and are
/// green or yellow.
pub open spec fn coloured(guess: Seq<char>, answer: Seq<char>, c: char, k: int) -> nat
    decreases k,
{
    if k <= 0 {
        0
    } else {
        coloured(guess, answer, c, k - 1) + if guess[k - 1] == c && is_coloured(
            scored_state(guess, answer, k - 1),
        ) {
            1nat
        } else {
            0nat
        }
    }
}

// ── Bookkeeping for the answer letters already claimed ───────────────────────

/// Number of positions `j < k` of the answer that hold `c`, are not green,
/// and are marked in `used`.
spec fn claimed(a: Seq<char>, g: Seq<char>, used: Seq<bool>, c: char, k: int) -> nat
    decreases k,
{
    if k <= 0 {
        0
    } else {
        claimed(a, g, used, c, k - 1) + if used[k - 1] && a[k - 1] == c && a[k - 1] != g[k - 1] {
            1nat
        } else {
            0nat
        }
    }
}

/// Position `j` of the answer holds a copy of `c` that is neither green nor claimed.
spec fn free_copy(a: Seq<char>, g: Seq<char>, used: Seq<bool>, c: char, j: int) -> bool {
    !used[j] && a[j] == c && a[j] != g[j]
}

proof fn lemma_claimed_bound(a: Seq<char>, g: Seq<char>, used: Seq<bool>, c: char, k: int)
    requires
        0 <= k <= a.len(),
        k <= g.len(),
        k <= used.len(),
    ensures
        claimed(a, g, used, c, k) <= unmatched(a, g, c, k),
        claimed(a, g, used, c, k) == unmatched(a, g, c, k) <==> forall|j: int|
            0 <= j < k ==> !#[trigger] free_copy(a, g, used, c, j),
    decreases k,
{
    if k > 0 {
        lemma_claimed_bound(a, g, used, c, k - 1);
        if free_copy(a, g, used, c, k - 1) {
            assert(!(forall|j: int| 0 <= j < k ==> !#[trigger] free_copy(a, g, used, c, j)));
        }
    }
}

proof fn lemma_claim_one(a: Seq<char>, g: Seq<char>, used: Seq<bool>, j0: int, c: char, k: int)
    requires
        0 <= k <= a.len(),
        k <= g.len(),
        k <= used.len(),
        0 <= j0 < used.len(),
        !used[j0],
    ensures
        claimed(a, g, used.update(j0, true), c, k) == claimed(a, g, used, c, k) + if j0 < k
            && a[j0] == c && a[j0] != g[j0] {
            1nat
        } else {
            0nat
        },
    decreases k,
{
    if k > 0 {
        lemma_claim_one(a, g, used, j0, c, k - 1);
    }
}

proof fn lemma_claimed_zero(a: Seq<char>, g: Seq<char>, used: Seq<bool>, c: char, k: int)
    requires
        0 <= k <= a.len(),
        k <= g.len(),
        k <= used.len(),
        forall|j: int| 0 <= j < k && #[trigger] used[j] ==> a[j] == g[j],
    ensures
        claimed(a, g, used, c, k) == 0,
    decreases k,
{
    if k > 0 {
        lemma_claimed_zero(a, g, used, c, k - 1);
    }
}

/// Unmatched copies up to `k + 1` add the one at position `k`.
proof fn lemma_unmatched_step(x: Seq<char>, y: Seq<char>, c: char, k: int)
    requires
        0 <= k,
    ensures
        unmatched(x, y, c, k + 1) == unmatched(x, y, c, k) + if x[k] == c && x[k] != y[k] {
            1nat
        } else {
            0nat
        },
{
}

/// The colour each position has after the first pass: green where the
/// letters agree, still empty elsewhere.
spec fn first_pass_state(g: Seq<char>, a: Seq<char>, j: int) -> TileState {
    if g[j] == a[j] {
        TileState::Correct
    } else {
        TileState::Empty
    }
}

/// First pass: letters in the right place are green; their answer
/// positions are marked as used.
fn mark_greens(guess_chars: &Vec<char>, answer_chars: &Vec<char>) -> (r: (
    [TileState; WORD_LENGTH],
    [bool; WORD_LENGTH],
))
    requires
        guess_chars@.len() >= WORD_LENGTH,
        answer_chars@.len() >= WORD_LENGTH,
    ensures
        forall|j: int|
            0 <= j < WORD_LENGTH ==> #[trigger] r.0@[j] == first_pass_state(guess_chars@, answer_chars@, j),
        forall|j: int|
            0 <= j < WORD_LENGTH ==> (#[trigger] r.1@[j] <==> guess_chars@[j] == answer_chars@[j]),
{
    let ghost g = guess_chars@;
    let ghost a = answer_chars@;
    let mut states: [TileState; WORD_LENGTH] = [TileState::Empty; 5];
    let mut answer_used: [bool; WORD_LENGTH] = [false; 5];
    for i in 0..WORD_LENGTH
        invariant
            guess_chars@ == g,
            answer_chars@ == a,
            g.len() >= WORD_LENGTH,
            a.len() >= WORD_LENGTH,
            forall|j: int| 0 <= j < i ==> #[trigger] states@[j] == first_pass_state(g, a, j),
            forall|j: int| i <= j < WORD_LENGTH ==> #[trigger] states@[j] == TileState::Empty,
            forall|j: int|
                0 <= j < WORD_LENGTH ==> (#[trigger] answer_used@[j] <==> (j < i && g[j] == a[j])),
    {
        assert(states@.len() == WORD_LENGTH);
        assert(answer_used@.len() == WORD_LENGTH);
        if guess_chars[i] == answer_chars[i] {
            states[i] = TileState::Correct;
            answer_used[i] = true;
        }
    }
    (states, answer_used)
}

/// Second pass: each remaining letter, from left to right, is yellow when it
/// can claim an unused copy in the answer, gray otherwise.
#[verifier::rlimit(30)]
fn mark_others(
    guess_chars: &Vec<char>,
    answer_chars: &Vec<char>,
    greens: [TileState; WORD_LENGTH],
    used: [bool; WORD_LENGTH],
) -> (states: [TileState; WORD_LENGTH])
    requires
        guess_chars@.len() >= WORD_LENGTH,
        answer_chars@.len() >= WORD_LENGTH,
        forall|j: int|
            0 <= j < WORD_LENGTH ==> #[trigger] greens@[j] == first_pass_state(guess_chars@, answer_chars@, j),
        forall|j: int|
            0 <= j < WORD_LENGTH ==> (#[trigger] used@[j] <==> guess_chars@[j] == answer_chars@[j]),
    ensures
        forall|j: int|
            0 <= j < WORD_LENGTH ==> #[trigger] states@[j] == scored_state(guess_chars@, answer_chars@, j),
{
    let ghost g = guess_chars@;
    let ghost a = answer_chars@;
    let mut states = greens;
    let mut answer_used = used;
    proof {
        assert(answer_used@.len() == WORD_LENGTH);
        assert forall|c: char| #[trigger]
            claimed(a, g, answer_used@, c, WORD_LENGTH as int) == 0 by {
            lemma_claimed_zero(a, g, answer_used@, c, WORD_LENGTH as int);
        }
    }
    for i in 0..WORD_LENGTH
        invariant
            guess_chars@ == g,
            answer_chars@ == a,
            g.len() >= WORD_LENGTH,
            a.len() >= WORD_LENGTH,
            forall|j: int| 0 <= j < i ==> #[trigger] states@[j] == scored_state(g, a, j),
            forall|j: int| i <= j < WORD_LENGTH ==> #[trigger] states@[j] == first_pass_state(g, a, j),
            forall|j: int| 0 <= j < WORD_LENGTH && g[j] == a[j] ==> #[trigger] answer_used@[j],
            forall|c: char| #[trigger]
                claimed(a, g, answer_used@, c, WORD_LENGTH as int) == min_nat(
                    unmatched(g, a, c, i as int),
                    unmatched(a, g, c, WORD_LENGTH as int),
                ),
    {
        let gc = guess_chars[i];
        assert(states@.len() == WORD_LENGTH);
        assert(answer_used@.len() == WORD_LENGTH);
        let ghost used_before = answer_used@;
        let ghost states_before = states@;
        proof {
            assert(states@[i as int] == first_pass_state(g, a, i as int));
            assert forall|c: char| #[trigger] unmatched(g, a, c, i + 1) == unmatched(g, a, c, i as int)
                + if g[i as int] == c && g[i as int] != a[i as int] {
                1nat
            } else {
                0nat
            } by {
                lemma_unmatched_step(g, a, c, i as int);
            }
        }
        if states[i] != TileState::Correct {
            let mut found = false;
            let mut j: usize = 0;
            let ghost mut pick: int = -1;
            while j < WORD_LENGTH && !found
                invariant
                    guess_chars@ == g,
                    answer_chars@ == a,
                    g.len() >= WORD_LENGTH,
                    a.len() >= WORD_LENGTH,
                    0 <= i < WORD_LENGTH,
                    gc == g[i as int],
                    g[i as int] != a[i as int],
                    j <= WORD_LENGTH,
                    used_before.len() == WORD_LENGTH,
                    states_before.len() == WORD_LENGTH,
                    forall|k: int| 0 <= k < WORD_LENGTH && g[k] == a[k] ==> #[trigger] used_before[k],
                    !found ==> answer_used@ == used_before,
                    !found ==> forall|k: int|
                        0 <= k < j ==> !#[trigger] free_copy(a, g, used_before, gc, k),
                    found ==> 0 <= pick < WORD_LENGTH && free_copy(a, g, used_before, gc, pick)
                        && answer_used@ == used_before.update(pick, true),
                    found ==> states@ == states_before.update(i as int, TileState::Present),
                    !found ==> states@ == states_before,
                decreases WORD_LENGTH - j,
            {
                assert(answer_used@.len() == WORD_LENGTH);
                if !answer_used[j] && gc == answer_chars[j] {
                    states[i] = TileState::Present;
                    answer_used[j] = true;
                    found = true;
                    proof {
                        pick = j as int;
                    }
                }
                j = j + 1;
            }
            if !found {
                states[i] = TileState::Absent;
            }
            proof {
                lemma_claimed_bound(a, g, used_before, gc, WORD_LENGTH as int);
                if found {
                    assert forall|c: char| #[trigger]
                        claimed(a, g, answer_used@, c, WORD_LENGTH as int) == claimed(
                            a,
                            g,
                            used_before,
                            c,
                            WORD_LENGTH as int,
                        ) + if c == gc {
                            1nat
                        } else {
                            0nat
                        } by {
                        lemma_claim_one(a, g, used_before, pick, c, WORD_LENGTH as int);
                    }
                }
            }
        }
    }
    states
}

/// Colours the five letters of `guess` against the five letters of `answer`.
pub fn evaluate_guess(guess: &str, answer: &str) -> (result: [Tile; WORD_LENGTH])
    requires
        guess@.len() >= WORD_LENGTH,
        answer@.len() >= WORD_LENGTH,
    ensures
        forall|i: int|
            0 <= i < WORD_LENGTH ==> #[trigger] result@[i] == scored_tile(guess@, answer@, i),
{
    let guess_chars = chars_of(guess);
    let answer_chars = chars_of(answer);
    let (greens, used) = mark_greens(&guess_chars, &answer_chars);
    let states = mark_others(&guess_chars, &answer_chars, greens, used);
    let c0 = guess_chars[0];
    let c1 = guess_chars[1];
    let c2 = guess_chars[2];
    let c3 = guess_chars[3];
    let c4 = guess_chars[4];
    [
        Tile::new(c0, states[0]),
        Tile::new(c1, states[1]),
        Tile::new(c2, states[2]),
        Tile::new(c3, states[3]),
        Tile::new(c4, states[4]),
    ]
}

// ── Laws of scoring ──────────────────────────────────────────────────────────

/// A guess is all green exactly when its five letters are the answer's five letters.
pub proof fn lemma_all_green_iff_same_word(guess: Seq<char>, answer: Seq<char>)
    requires
        guess.len() >= WORD_LENGTH,
        answer.len() >= WORD_LENGTH,
    ensures
        (forall|i: int|
            0 <= i < WORD_LENGTH ==> #[trigger] scored_state(guess, answer, i) == TileState::Correct)
            <==> guess.take(WORD_LENGTH as int) == answer.take(WORD_LENGTH as int),
{
    if guess.take(WORD_LENGTH as int) == answer.take(WORD_LENGTH as int) {
        assert forall|i: int| 0 <= i < WORD_LENGTH implies #[trigger] scored_state(guess, answer, i)
            == TileState::Correct by {
            assert(guess.take(WORD_LENGTH as int)[i] == answer.take(WORD_LENGTH as int)[i]);
        }
    }
    if forall|i: int|
        0 <= i < WORD_LENGTH ==> #[trigger] scored_state(guess, answer, i) == TileState::Correct {
        assert forall|i: int| 0 <= i < WORD_LENGTH implies guess[i] == answer[i] by {
            assert(scored_state(guess, answer, i) == TileState::Correct);
        }
        assert(guess.take(WORD_LENGTH as int) =~= answer.take(WORD_LENGTH as int));
    }
}

proof fn lemma_coloured_prefix(guess: Seq<char>, answer: Seq<char>, c: char, k: int)
    requires
        guess.len() >= WORD_LENGTH,
        answer.len() >= WORD_LENGTH,
        0 <= k <= WORD_LENGTH,
    ensures
        coloured(guess, answer, c, k) == matched(guess, answer, c, k) + min_nat(
            unmatched(guess, answer, c, k),
            unmatched(answer, guess, c, WORD_LENGTH as int),
        ),
    decreases k,
{
    if k > 0 {
        lemma_coloured_prefix(guess, answer, c, k - 1);
    }
}

proof fn lemma_occurrences_split(x: Seq<char>, y: Seq<char>, c: char, k: int)
    requires
        0 <= k <= x.len(),
        k <= y.len(),
    ensures
        occurrences(x, c, k) == matched(x, y, c, k) + unmatched(x, y, c, k),
        matched(x, y, c, k) == matched(y, x, c, k),
    decreases k,
{
    if k > 0 {
        lemma_occurrences_split(x, y, c, k - 1);
    }
}

/// For every letter, the number of green or yellow tiles showing it is the
/// smaller of how often it occurs in the guess and in the answer.
pub proof fn lemma_letter_colours(guess: Seq<char>, answer: Seq<char>, c: char)
    requires
        guess.len() >= WORD_LENGTH,
        answer.len() >= WORD_LENGTH,
    ensures
        coloured(guess, answer, c, WORD_LENGTH as int) == min_nat(
            occurrences(guess, c, WORD_LENGTH as int),
            occurrences(answer, c, WORD_LENGTH as int),
        ),
{
    lemma_coloured_prefix(guess, answer, c, WORD_LENGTH as int);
    lemma_occurrences_split(guess, answer, c, WORD_LENGTH as int);
    lemma_occurrences_split(answer, guess, c, WORD_LENGTH as int);
}

/// A letter that does not occur in the answer is gray wherever it stands.
pub proof fn lemma_absent_letter_gray(guess: Seq<char>, answer: Seq<char>, i: int)
    requires
        guess.len() >= WORD_LENGTH,
        answer.len() >= WORD_LENGTH,
        0 <= i < WORD_LENGTH,
        forall|j: int| 0 <= j < WORD_LENGTH ==> answer[j] != guess[i],
    ensures
        scored_state(guess, answer, i) == TileState::Absent,
{
    lemma_occurrences_split(answer, guess, guess[i], WORD_LENGTH as int);
    lemma_no_occurrences(answer, guess[i], WORD_LENGTH as int);
}

proof fn lemma_no_occurrences(x: Seq<char>, c: char, k: int)
    requires
        0 <= k <= x.len(),
        forall|j: int| 0 <= j < k ==> x[j] != c,
    ensures
        occurrences(x, c, k) == 0,
    decreases k,
{
    if k > 0 {
        lemma_no_occurrences(x, c, k - 1);
    }
}

} // verus!
