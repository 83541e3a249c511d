//! The on-screen keyboard's colours: for each letter played so far, the best
//! colour it has shown on the board (green over yellow over gray).
use vstd::prelude::*;

use crate::tiles::{Tile, TileState};
use crate::WORD_LENGTH;

verus! {

/// How much a colour tells about a letter: green 2, yellow 1, anything else 0.
pub open spec fn rank(s: TileState) -> int {
    match s {
        TileState::Correct => 2,
        TileState::Present => 1,
        _ => 0,
    }
}

/// The colour a key takes when it showed `current` and a tile of the letter
/// now shows `new`: green stays green, yellow gives way only to green, and
/// otherwise the key takes the new colour.
pub open spec fn upgrade(current: TileState, new: TileState) -> TileState {
    if current == TileState::Correct {
        TileState::Correct
    } else if new == TileState::Correct {
        TileState::Correct
    } else if current == TileState::Present {
        TileState::Present
    } else if new == TileState::Present {
        TileState::Present
    } else {
        new
    }
}

/// The colour recorded for key `c` in `keys`, if any.
pub open spec fn key_lookup(keys: Seq<(char, TileState)>, c: char) -> Option<TileState>
    decreases keys.len(),
{
    if keys.len() == 0 {
        None
    } else if keys.last().0 == c {
        Some(keys.last().1)
    } else {
        key_lookup(keys.drop_last(), c)
    }
}

/// No key is recorded twice.
pub open spec fn keys_distinct(keys: Seq<(char, TileState)>) -> bool {
    forall|i: int, j: int| 0 <= i < j < keys.len() ==> #[trigger] keys[i].0 != #[trigger] keys[j].0
}

/// The colour of key `c`, starting from `prev`, after the first `k` tiles
/// of `row` have been played: each tile showing `c` upgrades the key (a key
/// seen for the first time starts as gray).
pub open spec fn key_after(prev: Option<TileState>, row: Seq<Tile>, c: char, k: int) -> Option<
    TileState,
>
    decreases k,
{
    if k <= 0 {
        prev
    } else {
        let before = key_after(prev, row, c, k - 1);
        if row[k - 1].ch == c {
            Some(
                upgrade(
                    match before {
                        Some(s) => s,
                        None => TileState::Absent,
                    },
                    row[k - 1].state,
                ),
            )
        } else {
            before
        }
    }
}

proof fn lemma_lookup_found(keys: Seq<(char, TileState)>, i: int, c: char)
    requires
        keys_distinct(keys),
        0 <= i < keys.len(),
        keys[i].0 == c,
    ensures
        key_lookup(keys, c) == Some(keys[i].1),
    decreases keys.len(),
{
    if i != keys.len() - 1 {
        assert(keys[i].0 != keys[keys.len() - 1].0);
        let rest = keys.drop_last();
        assert(keys_distinct(rest)) by {
            assert forall|a: int, b: int| 0 <= a < b < rest.len() implies #[trigger] rest[a].0
                != #[trigger] rest[b].0 by {
                assert(rest[a] == keys[a] && rest[b] == keys[b]);
            }
        }
        assert(rest[i] == keys[i]);
        lemma_lookup_found(rest, i, c);
    }
}

proof fn lemma_lookup_missing(keys: Seq<(char, TileState)>, c: char)
    requires
        forall|i: int| 0 <= i < keys.len() ==> #[trigger] keys[i].0 != c,
    ensures
        key_lookup(keys, c) == None::<TileState>,
    decreases keys.len(),
{
    if keys.len() > 0 {
        let rest = keys.drop_last();
        assert forall|i: int| 0 <= i < rest.len() implies #[trigger] rest[i].0 != c by {
            assert(rest[i] == keys[i]);
        }
        lemma_lookup_missing(rest, c);
    }
}

/// Looking a key up in a sequence without repeats: the recorded colour if
/// some entry holds the key, nothing otherwise.
proof fn lemma_lookup(keys: Seq<(char, TileState)>, c: char)
    requires
        keys_distinct(keys),
    ensures
        (exists|i: int| 0 <= i < keys.len() && keys[i].0 == c) ==> key_lookup(keys, c) == Some(
            keys[choose|i: int| 0 <= i < keys.len() && keys[i].0 == c].1,
        ),
        !(exists|i: int| 0 <= i < keys.len() && keys[i].0 == c) ==> key_lookup(keys, c) == None::<
            TileState,
        >,
{
    if exists|i: int| 0 <= i < keys.len() && keys[i].0 == c {
        let i = choose|i: int| 0 <= i < keys.len() && keys[i].0 == c;
        lemma_lookup_found(keys, i, c);
    } else {
        lemma_lookup_missing(keys, c);
    }
}

/// The key upgrade, computed.
pub fn upgrade_state(current: TileState, new: TileState) -> (s: TileState)
    ensures
        s == upgrade(current, new),
{
    match (current, new) {
        (TileState::Correct, _) => TileState::Correct,
        (_, TileState::Correct) => TileState::Correct,
        (TileState::Present, _) => TileState::Present,
        (_, TileState::Present) => TileState::Present,
        _ => new,
    }
}

/// The position of key `c` in `keys`, if it is recorded.
fn find_key(keys: &Vec<(char, TileState)>, c: char) -> (r: Option<usize>)
    ensures
        r matches Some(i) ==> i < keys@.len() && keys@[i as int].0 == c,
        r is None ==> forall|i: int| 0 <= i < keys@.len() ==> #[trigger] keys@[i].0 != c,
{
    let mut i: usize = 0;
    while i < keys.len()
        invariant
            i <= keys@.len(),
            forall|j: int| 0 <= j < i ==> #[trigger] keys@[j].0 != c,
        decreases keys@.len() - i,
    {
        if keys[i].0 == c {
            return Some(i);
        }
        i = i + 1;
    }
    None
}

fn key_entry(c: char, s: TileState) -> (e: (char, TileState))
    ensures
        e == (c, s),
{
    (c, s)
}

/// The colour recorded for key `c`.
pub fn lookup_key(keys: &Vec<(char, TileState)>, c: char) -> (r: Option<TileState>)
    requires
        keys_distinct(keys@),
    ensures
        r == key_lookup(keys@, c),
{
    proof {
        lemma_lookup(keys@, c);
    }
    match find_key(keys, c) {
        Some(i) => {
            proof {
                lemma_lookup_found(keys@, i as int, c);
            }
            Some(keys[i].1)
        },
        None => None,
    }
}

/// Plays one tile on the keyboard: the key of its letter is upgraded by its
/// colour, or recorded for the first time.
fn play_tile(keys: &mut Vec<(char, TileState)>, tile: Tile)
    requires
        keys_distinct(old(keys)@),
    ensures
        keys_distinct(final(keys)@),
        forall|c: char| #[trigger]
            key_lookup(final(keys)@, c) == if c == tile.ch {
                Some(
                    upgrade(
                        match key_lookup(old(keys)@, c) {
                            Some(s) => s,
                            None => TileState::Absent,
                        },
                        tile.state,
                    ),
                )
            } else {
                key_lookup(old(keys)@, c)
            },
{
    let ghost before = keys@;
    let ch = tile.ch;
    match find_key(keys, ch) {
        Some(k) => {
            proof {
                lemma_lookup_found(before, k as int, ch);
            }
            let current = keys[k].1;
            let entry = key_entry(ch, upgrade_state(current, tile.state));
            keys.set(k, entry);
            assert(keys_distinct(keys@)) by {
                assert forall|a: int, b: int| 0 <= a < b < keys@.len() implies #[trigger] keys@[a].0
                    != #[trigger] keys@[b].0 by {
                    assert(before[a].0 != before[b].0);
                }
            }
            assert forall|c: char| #[trigger]
                key_lookup(keys@, c) == if c == ch {
                    Some(upgrade(
                        match key_lookup(before, c) {
                            Some(s) => s,
                            None => TileState::Absent,
                        },
                        tile.state,
                    ))
                } else {
                    key_lookup(before, c)
                } by {
                if c == ch {
                    lemma_lookup_found(keys@, k as int, c);
                } else {
                    lemma_lookup(keys@, c);
                    lemma_lookup(before, c);
                    if exists|i: int| 0 <= i < keys@.len() && keys@[i].0 == c {
                        let i = choose|i: int| 0 <= i < keys@.len() && keys@[i].0 == c;
                        assert(before[i].0 == c);
                        lemma_lookup_found(before, i, c);
                        lemma_lookup_found(keys@, i, c);
                    } else {
                        assert forall|i: int| 0 <= i < before.len() implies #[trigger] before[i].0
                            != c by {
                            if i != k {
                                assert(keys@[i] == before[i]);
                            }
                        }
                        lemma_lookup_missing(before, c);
                    }
                }
            }
        },
        None => {
            proof {
                lemma_lookup_missing(before, ch);
            }
            let entry = key_entry(ch, upgrade_state(TileState::Absent, tile.state));
            keys.push(entry);
            assert(keys_distinct(keys@)) by {
                assert forall|a: int, b: int| 0 <= a < b < keys@.len() implies #[trigger] keys@[a].0
                    != #[trigger] keys@[b].0 by {
                    if b < before.len() {
                        assert(before[a].0 != before[b].0);
                    } else {
                        assert(before[a].0 != ch);
                    }
                }
            }
            assert forall|c: char| #[trigger]
                key_lookup(keys@, c) == if c == ch {
                    Some(upgrade(
                        match key_lookup(before, c) {
                            Some(s) => s,
                            None => TileState::Absent,
                        },
                        tile.state,
                    ))
                } else {
                    key_lookup(before, c)
                } by {
                assert(keys@.drop_last() =~= before);
            }
        },
    }
}

/// Plays a scored row on the keyboard, tile by tile from left to right.
pub fn play_row(keys: &mut Vec<(char, TileState)>, row: &[Tile; WORD_LENGTH])
    requires
        keys_distinct(old(keys)@),
    ensures
        keys_distinct(final(keys)@),
        forall|c: char| #[trigger]
            key_lookup(final(keys)@, c) == key_after(
                key_lookup(old(keys)@, c),
                row@,
                c,
                WORD_LENGTH as int,
            ),
{
    let ghost start = keys@;
    for t in 0..WORD_LENGTH
        invariant
            keys_distinct(keys@),
            forall|c: char| #[trigger]
                key_lookup(keys@, c) == key_after(key_lookup(start, c), row@, c, t as int),
    {
        assert(row@.len() == WORD_LENGTH);
        let tile = row[t];
        let ghost mid = keys@;
        play_tile(keys, tile);
        assert forall|c: char| #[trigger]
            key_lookup(keys@, c) == key_after(key_lookup(start, c), row@, c, t + 1) by {
            assert(key_lookup(mid, c) == key_after(key_lookup(start, c), row@, c, t as int));
        }
    }
}

// ── Laws of the keyboard ─────────────────────────────────────────────────────

/// A key's colour never loses information: after a row is played, every key
/// that was recorded is still recorded, with a rank at least as high.
pub proof fn lemma_keys_only_upgrade(prev: Option<TileState>, row: Seq<Tile>, c: char, k: int)
    requires
        0 <= k <= row.len(),
    ensures
        prev matches Some(p) ==> key_after(prev, row, c, k) matches Some(n) && rank(n) >= rank(p),
    decreases k,
{
    if k > 0 {
        lemma_keys_only_upgrade(prev, row, c, k - 1);
    }
}

/// A key that a row shows green is green afterwards.
pub proof fn lemma_green_key_stays(prev: Option<TileState>, row: Seq<Tile>, c: char, k: int, i: int)
    requires
        0 <= i < k <= row.len(),
        row[i].ch == c,
        row[i].state == TileState::Correct,
    ensures
        key_after(prev, row, c, k) == Some(TileState::Correct),
    decreases k,
{
    if k - 1 > i {
        lemma_green_key_stays(prev, row, c, k - 1, i);
    }
}

/// A colour a key can show: green, yellow or gray.
pub open spec fn is_key_colour(s: TileState) -> bool {
    s == TileState::Correct || s == TileState::Present || s == TileState::Absent
}

/// After the first `k` tiles of `row`, key `c` shows the highest-ranked of
/// its colour before and the colours of those tiles of its letter (a key
/// colour once a tile of its letter was played), and it is recorded exactly
/// when it was before or a tile of its letter was played.
pub open spec fn shows_highest(prev: Option<TileState>, row: Seq<Tile>, c: char, k: int) -> bool {
    &&& key_after(prev, row, c, k) is Some <==> (prev is Some || exists|i: int|
        0 <= i < k && #[trigger] row[i].ch == c)
    &&& key_after(prev, row, c, k) matches Some(s) ==> {
        &&& ((prev matches Some(p) && is_key_colour(p)) || exists|i: int|
            0 <= i < k && #[trigger] row[i].ch == c) ==> is_key_colour(s)
        &&& (prev matches Some(p) ==> rank(p) <= rank(s))
        &&& forall|i: int| 0 <= i < k && #[trigger] row[i].ch == c ==> rank(row[i].state) <= rank(s)
        &&& (prev == Some(s) || exists|i: int|
            0 <= i < k && #[trigger] row[i].ch == c && row[i].state == s)
    }
}

/// After a row of green, yellow and gray tiles is played, each key shows
/// the highest-ranked of its colour before and the row's colours of its
/// letter.
pub proof fn lemma_key_is_highest(prev: Option<TileState>, row: Seq<Tile>, c: char, k: int)
    requires
        0 <= k <= row.len(),
        forall|i: int| 0 <= i < row.len() ==> is_key_colour(#[trigger] row[i].state),
    ensures
        shows_highest(prev, row, c, k),
    decreases k,
{
    if k > 0 {
        lemma_key_is_highest(prev, row, c, k - 1);
        let t = row[k - 1];
        assert(is_key_colour(t.state));
        let before = key_after(prev, row, c, k - 1);
        if t.ch == c {
            if let Some(b) = before {
                if b == upgrade(b, t.state) {
                    if prev != Some(b) {
                        let i = choose|i: int| 0 <= i < k - 1 && #[trigger] row[i].ch == c && row[i].state == b;
                        assert(0 <= i < k && row[i].ch == c && row[i].state == b);
                    }
                }
            }
        } else {
            if let Some(b) = before {
                if prev != Some(b) {
                    let i = choose|i: int| 0 <= i < k - 1 && #[trigger] row[i].ch == c && row[i].state == b;
                    assert(0 <= i < k && row[i].ch == c && row[i].state == b);
                }
            }
            if exists|i: int| 0 <= i < k && #[trigger] row[i].ch == c {
                let i = choose|i: int| 0 <= i < k && #[trigger] row[i].ch == c;
                assert(i < k - 1);
            }
        }
    }
}

} // verus!
