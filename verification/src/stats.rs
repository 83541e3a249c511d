//! Statistics of the games a player finished, and the profiles that hold them.
use vstd::prelude::*;
use vstd::string::StringExecFns;

use crate::text::{
    byte_len_capped, byte_len, decimal, decimal_string, digit_char, str_to_lowercase, str_to_uppercase, str_trim,
    to_lowercase, to_owned_string, to_uppercase, trim,
};

verus! {

broadcast use vstd::array::group_array_axioms;

/// Seconds since the Unix epoch, by the system clock (zero if the clock is
/// before the epoch).
///
/// Trusted: `SystemTime::now`, `SystemTime::duration_since` and
/// `Duration::as_secs`. Nothing is stated of the result: it is the time.
#[verifier::external_body]
fn now_secs() -> u64 {
    std::time::SystemTime::now().duration_since(std::time::UNIX_EPOCH).unwrap_or_default().as_secs()
}

/// Seconds in a day.
pub const SECS_PER_DAY: u64 = 86400;

/// The day, counted from the Unix epoch, that a clock reading of `secs`
/// seconds since the epoch falls on.
pub open spec fn day_of(secs: u64) -> u64 {
    secs / SECS_PER_DAY
}

/// Today, counted in days from the Unix epoch: the day of the clock's
/// current reading.
fn epoch_day() -> (d: u64)
    ensures
        exists|secs: u64| d == #[trigger] day_of(secs),
{
    let secs = now_secs();
    let d = secs / SECS_PER_DAY;
    assert(d == day_of(secs));
    d
}

/// The number of slots of the guess distribution.
pub const DIST_SLOTS: usize = 6;

// ── Stats ─────────────────────────────────────────────────────────────────────

/// A player's statistics.
#[derive(Clone, Debug)]
pub struct Stats {
    pub games_played: u32,
    pub games_won: u32,
    pub current_streak: u32,
    pub max_streak: u32,
    /// Index 0 = won in 1 guess … index 5 = won in 6 guesses
    pub guess_dist: [u32; 6],
    /// Fastest winning game in seconds (None if never won)
    pub fastest_win_secs: Option<u64>,
    /// Sum of guesses used across all wins (for average calculation)
    pub total_guesses_on_wins: u32,
    /// Total seconds spent actively playing
    pub total_time_secs: u64,
    /// Epoch-day when the last game was completed (streak logic)
    pub last_epoch_day: Option<u64>,
    /// How many times each word was typed as the first guess, each word once
    pub first_word_freq: Vec<(String, u32)>,
}

/// The words and counts of a frequency table.
pub open spec fn freq_view(freq: Seq<(String, u32)>) -> Seq<(Seq<char>, u32)> {
    freq.map_values(|e: (String, u32)| (e.0@, e.1))
}

/// No word occurs twice in the table.
pub open spec fn words_distinct(freq: Seq<(Seq<char>, u32)>) -> bool {
    forall|i: int, j: int| 0 <= i < j < freq.len() ==> #[trigger] freq[i].0 != #[trigger] freq[j].0
}

/// The table after one more use of `word`: its count goes up by one, or it
/// is added with a count of one.
pub open spec fn counted(freq: Seq<(Seq<char>, u32)>, old_freq: Seq<(Seq<char>, u32)>, word: Seq<
    char,
>) -> bool {
    &&& (forall|i: int|
        0 <= i < old_freq.len() && #[trigger] old_freq[i].0 == word ==> freq == old_freq.update(
            i,
            (word, (old_freq[i].1 + 1) as u32),
        ))
    &&& (forall|i: int| 0 <= i < old_freq.len() ==> #[trigger] old_freq[i].0 != word) ==> freq
        == old_freq.push((word, 1u32))
}

/// The slot of the guess distribution a win in `guesses_used` guesses
/// counts in: one guess in slot 0, …, six or more in slot 5 (zero counts as one).
pub open spec fn dist_slot(guesses_used: u32) -> int {
    if guesses_used <= 1 {
        0
    } else if guesses_used >= 6 {
        5
    } else {
        guesses_used - 1
    }
}

/// The day before `today` (today itself on day zero).
pub open spec fn yesterday(today: u64) -> u64 {
    if today >= 1 {
        (today - 1) as u64
    } else {
        0
    }
}

/// The streak after a win on `today`: one more after a game yesterday,
/// unchanged after another game today, otherwise a new streak of one.
pub open spec fn streak_after_win(last_day: Option<u64>, streak: u32, today: u64) -> int {
    match last_day {
        Some(d) => if d == yesterday(today) {
            streak + 1
        } else if d == today {
            streak as int
        } else {
            1
        },
        None => 1,
    }
}

/// The streak after a loss on `today`: unchanged after another game today,
/// otherwise broken.
pub open spec fn streak_after_loss(last_day: Option<u64>, streak: u32, today: u64) -> int {
    match last_day {
        Some(d) => if d == today {
            streak as int
        } else {
            0
        },
        None => 0,
    }
}

/// The fastest win after a win that took `elapsed_secs` (counted as at
/// least one second).
pub open spec fn fastest_after(prev: Option<u64>, elapsed_secs: u64) -> u64 {
    let t = if elapsed_secs >= 1 {
        elapsed_secs
    } else {
        1
    };
    match prev {
        Some(p) => if p <= t {
            p
        } else {
            t
        },
        None => t,
    }
}

/// The view of an optional word.
pub open spec fn word_view(w: Option<&str>) -> Option<Seq<char>> {
    match w {
        Some(w) => Some(w@),
        None => None,
    }
}

/// Total of the guess distribution.
pub open spec fn dist_total(d: Seq<u32>) -> int {
    d[0] + d[1] + d[2] + d[3] + d[4] + d[5]
}

/// The guesses counted by the distribution: slot `i` counts wins in `i + 1`
/// guesses.
pub open spec fn weighted_total(d: Seq<u32>) -> int {
    d[0] + 2 * d[1] + 3 * d[2] + 4 * d[3] + 5 * d[4] + 6 * d[5]
}

/// `n` written with at least two digits (a leading zero below ten).
pub open spec fn two_digits(n: nat) -> Seq<char> {
    if n < 10 {
        seq!['0'] + decimal(n)
    } else {
        decimal(n)
    }
}

/// "M:SS" for a number of seconds.
pub open spec fn minutes_seconds(secs: u64) -> Seq<char> {
    decimal((secs / 60) as nat) + seq![':'] + two_digits((secs % 60) as nat)
}

/// "Xh Ym" from an hour on, "Ym Zs" below that.
pub open spec fn duration_text(secs: u64) -> Seq<char> {
    let h = (secs / 3600) as nat;
    let m = ((secs % 3600) / 60) as nat;
    let s = (secs % 60) as nat;
    if h > 0 {
        decimal(h) + seq!['h', ' '] + decimal(m) + seq!['m']
    } else {
        decimal(m) + seq!['m', ' '] + decimal(s) + seq!['s']
    }
}

impl Stats {
    /// The first-word counts.
    pub open spec fn freq(&self) -> Seq<(Seq<char>, u32)> {
        freq_view(self.first_word_freq@)
    }

    /// Each first word is counted in one entry.
    pub open spec fn wf(&self) -> bool {
        words_distinct(self.freq())
    }

    /// The statistics of a player who has not finished a game.
    pub open spec fn is_fresh(&self) -> bool {
        &&& self.games_played == 0
        &&& self.games_won == 0
        &&& self.current_streak == 0
        &&& self.max_streak == 0
        &&& forall|i: int| 0 <= i < DIST_SLOTS ==> #[trigger] self.guess_dist@[i] == 0
        &&& self.fastest_win_secs is None
        &&& self.total_guesses_on_wins == 0
        &&& self.total_time_secs == 0
        &&& self.last_epoch_day is None
        &&& self.first_word_freq@.len() == 0
    }

    /// What the statistics say about each other: no more wins than games,
    /// one slot of the distribution per win, a best streak at least the
    /// current one, and a fastest time exactly when there was a win.
    pub open spec fn consistent(&self) -> bool {
        &&& self.games_won <= self.games_played
        &&& dist_total(self.guess_dist@) == self.games_won
        &&& self.current_streak <= self.max_streak
        &&& (self.fastest_win_secs is Some <==> self.games_won > 0)
    }

    /// Whether recording a game on `today` stays within the counters' range.
    pub open spec fn can_record_on(
        &self,
        won: bool,
        guesses_used: u32,
        elapsed_secs: u64,
        first_word: Option<Seq<char>>,
        today: u64,
    ) -> bool {
        &&& self.games_played < u32::MAX
        &&& self.total_time_secs + elapsed_secs <= u64::MAX
        &&& won ==> {
            &&& self.games_won < u32::MAX
            &&& self.total_guesses_on_wins + guesses_used <= u32::MAX
            &&& self.guess_dist@[dist_slot(guesses_used)] < u32::MAX
            &&& streak_after_win(self.last_epoch_day, self.current_streak, today) <= u32::MAX
        }
        &&& first_word matches Some(w) ==> forall|i: int|
            0 <= i < self.freq().len() && #[trigger] self.freq()[i].0 == str_to_lowercase(w)
                ==> self.freq()[i].1 < u32::MAX
    }

    /// Whether recording a game stays within the counters' range on any
    /// day: the streak can only grow after a game on an earlier day, and
    /// only the counted word's entry grows.
    pub open spec fn fits_record(
        &self,
        won: bool,
        guesses_used: u32,
        elapsed_secs: u64,
        first_word: Option<Seq<char>>,
    ) -> bool {
        &&& self.games_played < u32::MAX
        &&& self.total_time_secs + elapsed_secs <= u64::MAX
        &&& won ==> {
            &&& self.games_won < u32::MAX
            &&& self.total_guesses_on_wins + guesses_used <= u32::MAX
            &&& self.guess_dist@[dist_slot(guesses_used)] < u32::MAX
            &&& self.last_epoch_day is Some ==> self.current_streak < u32::MAX
        }
        &&& first_word matches Some(w) ==> forall|i: int|
            0 <= i < self.freq().len() && #[trigger] self.freq()[i].0 == str_to_lowercase(w)
                ==> self.freq()[i].1 < u32::MAX
    }

    /// What trying to record a game on day `today` leads to: `recorded`
    /// exactly when no counter overflows on that day; then the game is
    /// recorded on that day, otherwise nothing changes.
    pub open spec fn record_outcome(
        &self,
        before: &Stats,
        won: bool,
        guesses_used: u32,
        elapsed_secs: u64,
        first_word: Option<Seq<char>>,
        today: u64,
        recorded: bool,
    ) -> bool {
        &&& recorded == before.can_record_on(won, guesses_used, elapsed_secs, first_word, today)
        &&& recorded ==> self.recorded_on(
            before,
            won,
            guesses_used,
            elapsed_secs,
            first_word,
            today,
        )
        &&& !recorded ==> *self == *before
    }

    /// How the statistics change when a game is recorded on `today`.
    pub open spec fn recorded_on(
        &self,
        before: &Stats,
        won: bool,
        guesses_used: u32,
        elapsed_secs: u64,
        first_word: Option<Seq<char>>,
        today: u64,
    ) -> bool {
        &&& self.games_played == before.games_played + 1
        &&& self.total_time_secs == before.total_time_secs + elapsed_secs
        &&& self.last_epoch_day == Some(today)
        &&& won ==> {
            &&& self.games_won == before.games_won + 1
            &&& self.total_guesses_on_wins == before.total_guesses_on_wins + guesses_used
            &&& self.guess_dist@ == before.guess_dist@.update(
                dist_slot(guesses_used),
                (before.guess_dist@[dist_slot(guesses_used)] + 1) as u32,
            )
            &&& self.current_streak == streak_after_win(
                before.last_epoch_day,
                before.current_streak,
                today,
            )
            &&& self.max_streak == if before.max_streak >= self.current_streak {
                before.max_streak
            } else {
                self.current_streak
            }
            &&& self.fastest_win_secs == Some(fastest_after(before.fastest_win_secs, elapsed_secs))
        }
        &&& !won ==> {
            &&& self.games_won == before.games_won
            &&& self.total_guesses_on_wins == before.total_guesses_on_wins
            &&& self.guess_dist@ == before.guess_dist@
            &&& self.current_streak == streak_after_loss(
                before.last_epoch_day,
                before.current_streak,
                today,
            )
            &&& self.max_streak == before.max_streak
            &&& self.fastest_win_secs == before.fastest_win_secs
        }
        &&& first_word matches Some(w) ==> counted(self.freq(), before.freq(), str_to_lowercase(w))
        &&& first_word is None ==> self.freq() == before.freq()
    }

    /// The fastest win as "M:SS", if there was a win.
    pub fn fastest_fmt(&self) -> (s: Option<String>)
        ensures
            self.fastest_win_secs is None ==> s is None,
            self.fastest_win_secs matches Some(t) ==> s matches Some(text) && text@ == minutes_seconds(
                t,
            ),
    {
        match self.fastest_win_secs {
            Some(t) => {
                let mut text = decimal_string(t / 60);
                text.append(":");
                let rest = t % 60;
                if rest < 10 {
                    text.append("0");
                }
                let digits = decimal_string(rest);
                text.append(digits.as_str());
                proof {
                    reveal_strlit(":");
                    reveal_strlit("0");
                    assert(text@ =~= minutes_seconds(t));
                }
                Some(text)
            },
            None => None,
        }
    }

    /// The total time played as "Xh Ym" or "Ym Zs".
    pub fn total_time_fmt(&self) -> (s: String)
        ensures
            s@ == duration_text(self.total_time_secs),
    {
        let t = self.total_time_secs;
        let h = t / 3600;
        let m = (t % 3600) / 60;
        let sec = t % 60;
        proof {
            reveal_strlit("h ");
            reveal_strlit("m");
            reveal_strlit("m ");
            reveal_strlit("s");
        }
        if h > 0 {
            let mut text = decimal_string(h);
            text.append("h ");
            let mins = decimal_string(m);
            text.append(mins.as_str());
            text.append("m");
            assert(text@ =~= duration_text(t));
            text
        } else {
            let mut text = decimal_string(m);
            text.append("m ");
            let secs = decimal_string(sec);
            text.append(secs.as_str());
            text.append("s");
            assert(text@ =~= duration_text(t));
            text
        }
    }

    /// The most frequent first word, upper-cased; among equally frequent
    /// words, the one counted last in the table.
    pub fn favorite_start(&self) -> (s: Option<String>)
        ensures
            self.freq().len() == 0 ==> s is None,
            self.freq().len() > 0 ==> exists|i: int|
                #![trigger self.freq()[i]]
                0 <= i < self.freq().len() && (forall|j: int|
                    0 <= j < self.freq().len() ==> #[trigger] self.freq()[j].1 <= self.freq()[i].1)
                    && (forall|j: int|
                    i < j < self.freq().len() ==> #[trigger] self.freq()[j].1 < self.freq()[i].1)
                    && (s matches Some(text) && text@ == str_to_uppercase(self.freq()[i].0)),
    {
        let freq = &self.first_word_freq;
        if freq.len() == 0 {
            return None;
        }
        let mut best: usize = 0;
        let mut i: usize = 1;
        while i < freq.len()
            invariant
                0 < freq@.len(),
                best < i <= freq@.len(),
                freq == &self.first_word_freq,
                forall|j: int| 0 <= j < i ==> #[trigger] freq@[j].1 <= freq@[best as int].1,
                forall|j: int| best < j < i ==> #[trigger] freq@[j].1 < freq@[best as int].1,
            decreases freq@.len() - i,
        {
            if freq[i].1 >= freq[best].1 {
                best = i;
            }
            i = i + 1;
        }
        let text = to_uppercase(freq[best].0.as_str());
        proof {
            assert(self.freq()[best as int] == (freq@[best as int].0@, freq@[best as int].1));
            assert forall|j: int| 0 <= j < self.freq().len() implies #[trigger] self.freq()[j].1
                <= self.freq()[best as int].1 by {
                assert(self.freq()[j].1 == freq@[j].1);
            }
            assert forall|j: int| best < j < self.freq().len() implies #[trigger] self.freq()[j].1
                < self.freq()[best as int].1 by {
                assert(self.freq()[j].1 == freq@[j].1);
            }
        }
        Some(text)
    }

    /// Records a finished game: `won`, the rows used, the seconds it took,
    /// and the first word guessed (if any), on today's date by the clock.
    pub fn record_game(
        &mut self,
        won: bool,
        guesses_used: u32,
        elapsed_secs: u64,
        first_word: Option<&str>,
    )
        requires
            old(self).wf(),
            old(self).fits_record(won, guesses_used, elapsed_secs, word_view(first_word)),
        ensures
            final(self).wf(),
            exists|secs: u64|
                #[trigger] final(self).recorded_on(
                    &*old(self),
                    won,
                    guesses_used,
                    elapsed_secs,
                    word_view(first_word),
                    day_of(secs),
                ),
            old(self).consistent() ==> final(self).consistent(),
    {
        let today = epoch_day();
        let ghost secs = choose|secs: u64| today == day_of(secs);
        self.record_game_on(won, guesses_used, elapsed_secs, first_word, today);
        assert(self.recorded_on(&*old(self), won, guesses_used, elapsed_secs, word_view(first_word), day_of(secs)));
    }

    /// Records a finished game on today's date by the clock when no
    /// counter overflows on that day, and returns true; otherwise leaves the
    /// statistics as they are and returns false. It always records when no
    /// counter can overflow on any day.
    pub fn try_record_game(
        &mut self,
        won: bool,
        guesses_used: u32,
        elapsed_secs: u64,
        first_word: Option<&str>,
    ) -> (recorded: bool)
        requires
            old(self).wf(),
        ensures
            final(self).wf(),
            old(self).fits_record(won, guesses_used, elapsed_secs, word_view(first_word)) ==> recorded,
            exists|secs: u64|
                #[trigger] final(self).record_outcome(
                    &*old(self),
                    won,
                    guesses_used,
                    elapsed_secs,
                    word_view(first_word),
                    day_of(secs),
                    recorded,
                ),
            recorded ==> (old(self).consistent() ==> final(self).consistent()),
    {
        let today = epoch_day();
        let ghost secs = choose|secs: u64| today == day_of(secs);
        let ghost fw = word_view(first_word);
        if self.games_played == u32::MAX || elapsed_secs > u64::MAX - self.total_time_secs {
            assert(self.record_outcome(self, won, guesses_used, elapsed_secs, fw, today, false));
            return false;
        }
        if won {
            let slot = guesses_used.saturating_sub(1);
            let idx: usize = if slot < 5 { slot as usize } else { 5 };
            assert(self.guess_dist@.len() == DIST_SLOTS);
            let streak_overflows = match self.last_epoch_day {
                Some(d) => d == today.saturating_sub(1) && self.current_streak == u32::MAX,
                None => false,
            };
            if self.games_won == u32::MAX || guesses_used > u32::MAX - self.total_guesses_on_wins
                || self.guess_dist[idx] == u32::MAX || streak_overflows {
                assert(self.record_outcome(self, won, guesses_used, elapsed_secs, fw, today, false));
                return false;
            }
        }
        match first_word {
            Some(w) => {
                let key = to_lowercase(w);
                if count_is_full(&self.first_word_freq, &key) {
                    proof {
                        let i = choose|i: int|
                            0 <= i < self.freq().len() && #[trigger] self.freq()[i].0 == key@
                                && self.freq()[i].1 == u32::MAX;
                        assert(fw == Some(w@));
                        assert(!self.can_record_on(won, guesses_used, elapsed_secs, fw, today));
                    }
                    assert(self.record_outcome(self, won, guesses_used, elapsed_secs, fw, today, false));
                    return false;
                }
                proof {
                    assert(fw == Some(w@));
                }
            },
            None => {},
        }
        assert(self.can_record_on(won, guesses_used, elapsed_secs, fw, today));
        if won && self.last_epoch_day.is_some() && self.current_streak == u32::MAX {
            // the streak stays in range on this day only: record on it
            self.record_game_on(won, guesses_used, elapsed_secs, first_word, today);
            assert(self.record_outcome(&*old(self), won, guesses_used, elapsed_secs, fw, today, true));
        } else {
            // in range on any day
            assert(old(self).fits_record(won, guesses_used, elapsed_secs, fw));
            self.record_game(won, guesses_used, elapsed_secs, first_word);
            proof {
                let t = choose|t: u64|
                    #[trigger] self.recorded_on(&*old(self), won, guesses_used, elapsed_secs, fw, day_of(t));
                assert(old(self).can_record_on(won, guesses_used, elapsed_secs, fw, day_of(t)));
                assert(self.record_outcome(&*old(self), won, guesses_used, elapsed_secs, fw, day_of(t), true));
            }
        }
        true
    }

    /// Records a finished game as played on day `today`.
    pub fn record_game_on(
        &mut self,
        won: bool,
        guesses_used: u32,
        elapsed_secs: u64,
        first_word: Option<&str>,
        today: u64,
    )
        requires
            old(self).wf(),
            old(self).can_record_on(
                won,
                guesses_used,
                elapsed_secs,
                word_view(first_word),
                today,
            ),
        ensures
            final(self).wf(),
            final(self).recorded_on(
                &*old(self),
                won,
                guesses_used,
                elapsed_secs,
                word_view(first_word),
                today,
            ),
            old(self).consistent() ==> final(self).consistent(),
    {
        self.games_played = self.games_played + 1;
        self.total_time_secs = self.total_time_secs + elapsed_secs;

        let yesterday = today.saturating_sub(1);

        if won {
            self.games_won = self.games_won + 1;
            self.total_guesses_on_wins = self.total_guesses_on_wins + guesses_used;

            let slot = guesses_used.saturating_sub(1);
            let idx: usize = if slot < 5 { slot as usize } else { 5 };
            assert(self.guess_dist@.len() == DIST_SLOTS);
            self.guess_dist[idx] = self.guess_dist[idx] + 1;

            self.current_streak = match self.last_epoch_day {
                Some(d) => if d == yesterday {
                    self.current_streak + 1
                } else if d == today {
                    // same-day replay, no change
                    self.current_streak
                } else {
                    1
                },
                None => 1,
            };
            if self.current_streak > self.max_streak {
                self.max_streak = self.current_streak;
            }
            let t = if elapsed_secs >= 1 { elapsed_secs } else { 1 };
            self.fastest_win_secs = Some(
                match self.fastest_win_secs {
                    Some(p) => if p <= t { p } else { t },
                    None => t,
                },
            );
        } else {
            let same_day = match self.last_epoch_day {
                Some(d) => d == today,
                None => false,
            };
            if !same_day {
                self.current_streak = 0;
            }
        }

        self.last_epoch_day = Some(today);

        match first_word {
            Some(w) => {
                let key = to_lowercase(w);
                assert forall|i: int|
                    0 <= i < self.first_word_freq@.len() && #[trigger] self.first_word_freq@[i].0@
                        == key@ implies self.first_word_freq@[i].1 < u32::MAX by {
                    assert(word_view(first_word) == Some(w@));
                    assert(old(self).freq()[i] == (self.first_word_freq@[i].0@, self.first_word_freq@[i].1));
                    assert(old(self).freq()[i].0 == str_to_lowercase(w@));
                }
                count_word(&mut self.first_word_freq, key);
            },
            None => {},
        }
    }
}

/// Whether the entry of `word` in the table is at its maximum count.
fn count_is_full(freq: &Vec<(String, u32)>, word: &String) -> (full: bool)
    ensures
        full == exists|i: int|
            0 <= i < freq_view(freq@).len() && #[trigger] freq_view(freq@)[i].0 == word@
                && freq_view(freq@)[i].1 == u32::MAX,
{
    let ghost v = freq_view(freq@);
    let mut i: usize = 0;
    while i < freq.len()
        invariant
            i <= freq@.len(),
            v == freq_view(freq@),
            forall|j: int| 0 <= j < i ==> !(#[trigger] v[j].0 == word@ && v[j].1 == u32::MAX),
        decreases freq@.len() - i,
    {
        if freq[i].0 == *word && freq[i].1 == u32::MAX {
            assert(v[i as int].0 == word@);
            return true;
        }
        assert(v[i as int] == (freq@[i as int].0@, freq@[i as int].1));
        i = i + 1;
    }
    false
}

/// Counts one more use of `word` in the table.
fn count_word(freq: &mut Vec<(String, u32)>, word: String)
    requires
        words_distinct(freq_view(old(freq)@)),
        forall|i: int|
            0 <= i < old(freq)@.len() && #[trigger] old(freq)@[i].0@ == word@ ==> old(freq)@[i].1
                < u32::MAX,
    ensures
        words_distinct(freq_view(final(freq)@)),
        counted(freq_view(final(freq)@), freq_view(old(freq)@), word@),
{
    let ghost before = freq_view(freq@);
    let mut i: usize = 0;
    while i < freq.len()
        invariant
            i <= freq@.len(),
            before == freq_view(freq@),
            before == freq_view(old(freq)@),
            words_distinct(before),
            forall|j: int|
                0 <= j < freq@.len() && #[trigger] freq@[j].0@ == word@ ==> freq@[j].1 < u32::MAX,
            forall|j: int| 0 <= j < i ==> #[trigger] freq@[j].0@ != word@,
        decreases freq@.len() - i,
    {
        if freq[i].0 == word {
            let n = freq[i].1;
            let ghost w = word@;
            assert(before[i as int].0 == w);
            freq.set(i, (word, n + 1));
            proof {
                assert(freq_view(freq@) =~= before.update(i as int, (w, (before[i as int].1 + 1) as u32)));
                assert forall|j: int| 0 <= j < before.len() && #[trigger] before[j].0 == w implies j == i by {
                    if j != i {
                        if j < i {
                            assert(before[j].0 != before[i as int].0);
                        } else {
                            assert(before[i as int].0 != before[j].0);
                        }
                    }
                }
                assert(counted(freq_view(freq@), before, w));
            }
            return;
        }
        i = i + 1;
    }
    let ghost w = word@;
    freq.push((word, 1));
    proof {
        assert(freq_view(freq@) =~= before.push((w, 1u32)));
        assert forall|j: int| 0 <= j < before.len() implies #[trigger] before[j].0 != w by {
            assert(freq@[j].0@ != w);
        }
    }
}

impl Default for Stats {
    fn default() -> (s: Stats)
        ensures
            s.is_fresh(),
            s.wf(),
            s.consistent(),
    {
        Stats {
            games_played: 0,
            games_won: 0,
            current_streak: 0,
            max_streak: 0,
            guess_dist: [0; 6],
            fastest_win_secs: None,
            total_guesses_on_wins: 0,
            total_time_secs: 0,
            last_epoch_day: None,
            first_word_freq: Vec::new(),
        }
    }
}

// ── Profile ───────────────────────────────────────────────────────────────────

/// A named player with their statistics.
#[derive(Clone, Debug)]
pub struct Profile {
    pub name: String,
    pub stats: Stats,
    /// When the profile was created, in seconds since the Unix epoch.
    pub created_epoch: u64,
}

impl Profile {
    /// A new profile called `name`, with fresh statistics, created now.
    pub fn new(name: &str) -> (p: Profile)
        ensures
            p.name@ == name@,
            p.stats.is_fresh(),
            p.stats.wf(),
            p.stats.consistent(),
    {
        Profile::created_at(name, now_secs())
    }

    /// A new profile called `name`, with fresh statistics, created at
    /// `created_epoch` (seconds since the Unix epoch).
    pub fn created_at(name: &str, created_epoch: u64) -> (p: Profile)
        ensures
            p.name@ == name@,
            p.stats.is_fresh(),
            p.stats.wf(),
            p.stats.consistent(),
            p.created_epoch == created_epoch,
    {
        Profile { name: to_owned_string(name), stats: Stats::default(), created_epoch }
    }
}

// ── ProfileManager ────────────────────────────────────────────────────────────

/// The names of a list of profiles.
pub open spec fn profile_names(profiles: Seq<Profile>) -> Seq<Seq<char>> {
    profiles.map_values(|p: Profile| p.name@)
}

/// The first position at or after `k` whose name is `name`, or -1.
pub open spec fn first_named_from(names: Seq<Seq<char>>, name: Seq<char>, k: int) -> int
    decreases names.len() - k,
{
    if k < 0 || k >= names.len() {
        -1
    } else if names[k] == name {
        k
    } else {
        first_named_from(names, name, k + 1)
    }
}

/// The first position whose name is `name`, or -1.
pub open spec fn first_named(names: Seq<Seq<char>>, name: Seq<char>) -> int {
    first_named_from(names, name, 0)
}

/// The position of the profile a manager treats as active: the first one
/// named `name`, or the first profile when none is.
pub open spec fn active_index(names: Seq<Seq<char>>, name: Seq<char>) -> int {
    let i = first_named(names, name);
    if i >= 0 {
        i
    } else {
        0
    }
}

/// The profiles other than those named `name`, in order.
pub open spec fn without_named(profiles: Seq<Profile>, name: Seq<char>) -> Seq<Profile>
    decreases profiles.len(),
{
    if profiles.len() == 0 {
        Seq::empty()
    } else {
        let rest = without_named(profiles.drop_last(), name);
        if profiles.last().name@ == name {
            rest
        } else {
            rest.push(profiles.last())
        }
    }
}

/// Whether `name` is the name of one of the profiles.
pub open spec fn has_name(names: Seq<Seq<char>>, name: Seq<char>) -> bool {
    exists|i: int| 0 <= i < names.len() && names[i] == name
}

/// Whether two of the names are the same after lower-casing.
pub open spec fn lower_clash(names: Seq<Seq<char>>, name: Seq<char>) -> bool {
    exists|i: int|
        0 <= i < names.len() && #[trigger] str_to_lowercase(names[i]) == str_to_lowercase(name)
}

proof fn lemma_first_named_at(names: Seq<Seq<char>>, name: Seq<char>, k: int, i: int)
    requires
        0 <= k <= i < names.len(),
        names[i] == name,
        forall|j: int| k <= j < i ==> #[trigger] names[j] != name,
    ensures
        first_named_from(names, name, k) == i,
    decreases i - k,
{
    if k < i {
        lemma_first_named_at(names, name, k + 1, i);
    }
}

proof fn lemma_first_named_none(names: Seq<Seq<char>>, name: Seq<char>, k: int)
    requires
        0 <= k <= names.len(),
        forall|j: int| k <= j < names.len() ==> #[trigger] names[j] != name,
    ensures
        first_named_from(names, name, k) == -1,
    decreases names.len() - k,
{
    if k < names.len() {
        lemma_first_named_none(names, name, k + 1);
    }
}

/// The first profile named `name`, found.
fn find_profile(profiles: &Vec<Profile>, name: &String) -> (r: Option<usize>)
    ensures
        r matches Some(i) ==> i < profiles@.len() && i as int == first_named(
            profile_names(profiles@),
            name@,
        ),
        r is None ==> first_named(profile_names(profiles@), name@) == -1,
        r is None <==> !has_name(profile_names(profiles@), name@),
{
    let ghost names = profile_names(profiles@);
    let mut i: usize = 0;
    while i < profiles.len()
        invariant
            i <= profiles@.len(),
            names == profile_names(profiles@),
            forall|j: int| 0 <= j < i ==> #[trigger] names[j] != name@,
        decreases profiles@.len() - i,
    {
        if profiles[i].name == *name {
            proof {
                lemma_first_named_at(names, name@, 0, i as int);
            }
            return Some(i);
        }
        i = i + 1;
    }
    proof {
        lemma_first_named_none(names, name@, 0);
    }
    None
}

/// The players' profiles, one of them active.
#[derive(Debug)]
pub struct ProfileManager {
    pub active_name: String,
    pub profiles: Vec<Profile>,
}

impl ProfileManager {
    /// The names of the profiles.
    pub open spec fn names(&self) -> Seq<Seq<char>> {
        profile_names(self.profiles@)
    }

    /// A manager in good order: at least one profile, no two names the same
    /// once lower-cased, and the active name naming a profile.
    pub open spec fn valid(&self) -> bool {
        &&& self.profiles@.len() >= 1
        &&& lower_distinct(self.names())
        &&& has_name(self.names(), self.active_name@)
    }

    /// The position of the active profile.
    pub open spec fn active_idx(&self) -> int {
        active_index(self.names(), self.active_name@)
    }

    /// A manager with the single profile "Player 1", active.
    pub fn new() -> (m: ProfileManager)
        ensures
            m.profiles@.len() == 1,
            m.profiles@[0].name@ == "Player 1"@,
            m.profiles@[0].stats.is_fresh(),
            m.active_name@ == "Player 1"@,
            m.valid(),
    {
        let p = Profile::new("Player 1");
        let name = p.name.clone();
        let mut profiles = Vec::new();
        profiles.push(p);
        let m = ProfileManager { active_name: name, profiles };
        assert(m.names()[0] == m.active_name@);
        m
    }

    /// The active profile: the first one named by `active_name`, or the
    /// first profile when none is.
    pub fn active(&self) -> (p: &Profile)
        requires
            self.profiles@.len() > 0,
        ensures
            *p == self.profiles@[self.active_idx()],
    {
        match find_profile(&self.profiles, &self.active_name) {
            Some(i) => &self.profiles[i],
            None => &self.profiles[0],
        }
    }

    /// The active profile, for changing it.
    pub fn active_mut(&mut self) -> (p: &mut Profile)
        requires
            old(self).profiles@.len() > 0,
        ensures
            *p == old(self).profiles@[old(self).active_idx()],
            final(self).profiles@ == old(self).profiles@.update(old(self).active_idx(), *final(p)),
            final(self).active_name == old(self).active_name,
    {
        let name = self.active_name.clone();
        match find_profile(&self.profiles, &name) {
            Some(i) => &mut self.profiles[i],
            None => &mut self.profiles[0],
        }
    }

    /// Makes the profile called `name` active, if there is one.
    pub fn switch_to(&mut self, name: &str)
        ensures
            final(self).profiles == old(self).profiles,
            has_name(old(self).names(), name@) ==> final(self).active_name@ == name@,
            !has_name(old(self).names(), name@) ==> final(self).active_name == old(self).active_name,
            old(self).valid() ==> final(self).valid(),
    {
        let wanted = to_owned_string(name);
        match find_profile(&self.profiles, &wanted) {
            Some(_) => {
                self.active_name = wanted;
            },
            None => {},
        }
    }

    /// What creating a profile from `name` does: the name, white space
    /// removed, is refused when empty, longer than 20 bytes, or the same as
    /// an existing name once both are lower-cased, and nothing changes;
    /// otherwise a fresh profile of that name is added at the end and made
    /// active.
    pub open spec fn created_from(&self, before: &Self, name: Seq<char>, r: Result<(), &str>) -> bool {
        let n = str_trim(name);
        &&& n.len() == 0 ==> (r matches Err(e) && e@ == "Name cannot be empty"@)
        &&& n.len() > 0 && byte_len(n) > 20 ==> (r matches Err(e) && e@ == "Max 20 characters"@)
        &&& n.len() > 0 && byte_len(n) <= 20 && lower_clash(before.names(), n) ==> (r matches Err(e)
            && e@ == "Name already taken"@)
        &&& r is Err ==> *self == *before
        &&& r is Ok <==> n.len() > 0 && byte_len(n) <= 20 && !lower_clash(before.names(), n)
        &&& r is Ok ==> {
            &&& self.profiles@.len() == before.profiles@.len() + 1
            &&& self.profiles@.drop_last() == before.profiles@
            &&& self.profiles@.last().name@ == n
            &&& self.profiles@.last().stats.is_fresh()
            &&& self.active_name@ == n
        }
    }

    /// Creates a profile called `name` with surrounding white space removed,
    /// created now, and makes it active. Refused when the name is empty,
    /// longer than 20 bytes, or the same as an existing name once both are
    /// lower-cased.
    pub fn create_profile(&mut self, name: &str) -> (r: Result<(), &'static str>)
        ensures
            final(self).created_from(&*old(self), name@, r),
            old(self).valid() ==> final(self).valid(),
    {
        self.create_profile_at(name, now_secs())
    }

    /// Creates a profile as `create_profile` does, with creation time
    /// `created_epoch`.
    pub fn create_profile_at(&mut self, name: &str, created_epoch: u64) -> (r: Result<
        (),
        &'static str,
    >)
        ensures
            final(self).created_from(&*old(self), name@, r),
            r is Ok ==> final(self).profiles@.last().created_epoch == created_epoch,
            old(self).valid() ==> final(self).valid(),
    {
        let n = trim(name);
        if n.is_empty() {
            return Err("Name cannot be empty");
        }
        if byte_len_capped(n, 21) > 20 {
            return Err("Max 20 characters");
        }
        let lowered = to_lowercase(n);
        let mut i: usize = 0;
        while i < self.profiles.len()
            invariant
                i <= self.profiles@.len(),
                lowered@ == str_to_lowercase(n@),
                n@ == str_trim(name@),
                n@.len() > 0,
                byte_len(n@) <= 20,
                *self == *old(self),
                forall|j: int| 0 <= j < i ==> #[trigger] str_to_lowercase(self.profiles@[j].name@)
                    != lowered@,
            decreases self.profiles@.len() - i,
        {
            let other = to_lowercase(self.profiles[i].name.as_str());
            if other == lowered {
                proof {
                    assert(self.names()[i as int] == self.profiles@[i as int].name@);
                    assert(str_to_lowercase(self.names()[i as int]) == str_to_lowercase(n@));
                }
                return Err("Name already taken");
            }
            i = i + 1;
        }
        proof {
            assert forall|j: int| 0 <= j < self.names().len() implies #[trigger] str_to_lowercase(
                self.names()[j],
            ) != str_to_lowercase(n@) by {
                assert(self.names()[j] == self.profiles@[j].name@);
            }
        }
        let p = Profile::created_at(n, created_epoch);
        self.active_name = p.name.clone();
        let ghost old_names = self.names();
        self.profiles.push(p);
        proof {
            assert(self.names() =~= old_names.push(n@));
            lemma_created_profile_is_active(old_names, n@);
            lemma_lower_distinct_push(old_names, n@);
            assert(self.names()[old_names.len() as int] == n@);
            assert(self.profiles@.drop_last() =~= old(self).profiles@);
        }
        Ok(())
    }

    /// Deletes every profile called `name`, unless only one profile is
    /// left. When the active profile goes, the first remaining one becomes
    /// active. Returns whether anything could be deleted (false for the
    /// last profile).
    pub fn delete_profile(&mut self, name: &str) -> (deleted: bool)
        requires
            !(old(self).profiles@.len() > 1 && old(self).active_name@ == name@ && without_named(
                old(self).profiles@,
                name@,
            ).len() == 0),
        ensures
            deleted == (old(self).profiles@.len() > 1),
            !deleted ==> *final(self) == *old(self),
            deleted ==> final(self).profiles@ == without_named(old(self).profiles@, name@),
            deleted && old(self).active_name@ == name@ ==> final(self).active_name@ == final(self).profiles@[0].name@,
            deleted && old(self).active_name@ != name@ ==> final(self).active_name
                == old(self).active_name,
            old(self).valid() ==> final(self).valid(),
    {
        if self.profiles.len() <= 1 {
            return false;
        }
        let target = to_owned_string(name);
        let was_active = self.active_name == target;
        let ghost orig = self.profiles@;
        let ghost mut k: int = 0;
        let mut i: usize = 0;
        while i < self.profiles.len()
            invariant
                target@ == name@,
                0 <= k <= orig.len(),
                self.profiles@ == without_named(orig.take(k), name@) + orig.skip(k),
                i == without_named(orig.take(k), name@).len(),
                self.active_name == old(self).active_name,
            decreases self.profiles@.len() - i,
        {
            proof {
                assert(orig.take(k + 1).drop_last() =~= orig.take(k));
                assert(orig.take(k + 1).last() == orig[k]);
                assert(self.profiles@[i as int] == orig[k]);
            }
            if self.profiles[i].name == target {
                let ghost before = self.profiles@;
                let _ = self.profiles.remove(i);
                proof {
                    assert(self.profiles@ =~= without_named(orig.take(k + 1), name@) + orig.skip(k + 1));
                    k = k + 1;
                }
            } else {
                proof {
                    assert(self.profiles@ =~= without_named(orig.take(k + 1), name@) + orig.skip(k + 1));
                    k = k + 1;
                }
                i = i + 1;
            }
        }
        proof {
            if k < orig.len() {
                assert(self.profiles@.len() > i);
            }
            assert(orig.take(orig.len() as int) =~= orig);
            assert(self.profiles@ =~= without_named(orig, name@));
        }
        proof {
            if old(self).valid() {
                lemma_delete_keeps_valid(orig, old(self).active_name@, name@);
            }
        }
        if was_active {
            self.active_name = self.profiles[0].name.clone();
            assert(self.names()[0] == self.active_name@);
        }
        true
    }
}

impl Default for ProfileManager {
    /// The same as `ProfileManager::new`.
    fn default() -> (m: ProfileManager)
        ensures
            m.profiles@.len() == 1,
            m.profiles@[0].name@ == "Player 1"@,
            m.profiles@[0].stats.is_fresh(),
            m.active_name@ == "Player 1"@,
    {
        ProfileManager::new()
    }
}

// ── Laws of statistics ───────────────────────────────────────────────────────

/// When every win is recorded with one to six guesses, the guesses counted by
/// the distribution stay equal to the total of guesses on wins.
pub proof fn lemma_record_keeps_guess_total(
    after: &Stats,
    before: &Stats,
    won: bool,
    guesses_used: u32,
    elapsed_secs: u64,
    first_word: Option<Seq<char>>,
    today: u64,
)
    requires
        after.recorded_on(before, won, guesses_used, elapsed_secs, first_word, today),
        weighted_total(before.guess_dist@) == before.total_guesses_on_wins,
        won ==> 1 <= guesses_used <= DIST_SLOTS,
    ensures
        weighted_total(after.guess_dist@) == after.total_guesses_on_wins,
{
}

/// A clock reading falls on the day it is counted on: that day starts at or
/// before the reading, and the next day starts after it.
pub proof fn lemma_day_of_bounds(secs: u64)
    ensures
        day_of(secs) * 86400 <= secs < day_of(secs) * 86400 + 86400,
{
}

/// Two clock readings a whole day apart fall on consecutive days.
pub proof fn lemma_day_of_next(secs: u64)
    requires
        secs + 86400 <= u64::MAX,
    ensures
        day_of((secs + 86400) as u64) == day_of(secs) + 1,
{
}

/// How a recorded game moves the streak, by the day it is recorded on: the
/// game's day becomes the last day played; another game on the same day
/// leaves the streak as it is; a win on the day after the last game extends
/// the streak by one; a win on any other day starts a new streak of one; a
/// loss on another day breaks the streak. The best streak follows a win's
/// streak when it passes it, and is untouched by a loss. (On day zero, the
/// epoch's own day, the day before counts as day zero too, so a second win
/// that day extends the streak.)
pub proof fn lemma_streak_by_day(
    after: &Stats,
    before: &Stats,
    won: bool,
    guesses_used: u32,
    elapsed_secs: u64,
    first_word: Option<Seq<char>>,
    today: u64,
)
    requires
        after.recorded_on(before, won, guesses_used, elapsed_secs, first_word, today),
    ensures
        after.last_epoch_day == Some(today),
        before.last_epoch_day == Some(today) && (today > 0 || !won) ==> after.current_streak
            == before.current_streak,
        before.last_epoch_day matches Some(d) && won && d + 1 == today ==> after.current_streak
            == before.current_streak + 1,
        won && before.last_epoch_day is None ==> after.current_streak == 1,
        before.last_epoch_day matches Some(d) && won && d != today && d + 1 != today
            ==> after.current_streak == 1,
        !won && before.last_epoch_day != Some(today) ==> after.current_streak == 0,
        won ==> after.max_streak == if before.max_streak >= after.current_streak {
            before.max_streak
        } else {
            after.current_streak
        },
        !won ==> after.max_streak == before.max_streak,
{
}

/// The "M:SS" text of a duration of `minutes` minutes and `seconds` seconds
/// (under a minute): the minutes in decimal, a colon, then the seconds as
/// exactly two digits, a leading zero below ten.
pub proof fn lemma_minutes_seconds_text(secs: u64, minutes: nat, seconds: nat)
    requires
        minutes * 60 + seconds == secs,
        seconds < 60,
    ensures
        minutes_seconds(secs) == decimal(minutes) + seq![
            ':',
            digit_char(seconds / 10),
            digit_char(seconds % 10),
        ],
        minutes_seconds(secs).len() == decimal(minutes).len() + 3,
{
    assert(secs / 60 == minutes && secs % 60 == seconds) by (nonlinear_arith)
        requires
            minutes * 60 + seconds == secs,
            seconds < 60,
    ;
    if seconds >= 10 {
        assert(decimal(seconds / 10) == seq![digit_char(seconds / 10)]);
    }
    assert(minutes_seconds(secs) =~= decimal(minutes) + seq![
        ':',
        digit_char(seconds / 10),
        digit_char(seconds % 10),
    ]);
}

/// The text of the time played, read back: with `hours` hours (at least
/// one), `minutes` minutes and `seconds` seconds, the text is the hours and
/// the minutes, however many hours; under an hour it is the minutes and the
/// seconds.
pub proof fn lemma_duration_text(secs: u64, hours: nat, minutes: nat, seconds: nat)
    requires
        hours * 3600 + minutes * 60 + seconds == secs,
        minutes < 60,
        seconds < 60,
    ensures
        hours > 0 ==> duration_text(secs) == decimal(hours) + seq!['h', ' '] + decimal(minutes)
            + seq!['m'],
        hours == 0 ==> duration_text(secs) == decimal(minutes) + seq!['m', ' '] + decimal(seconds)
            + seq!['s'],
{
    assert(secs / 3600 == hours && (secs % 3600) / 60 == minutes && secs % 60 == seconds)
        by (nonlinear_arith)
        requires
            hours * 3600 + minutes * 60 + seconds == secs,
            minutes < 60,
            seconds < 60,
    ;
}

// ── Laws of profiles ─────────────────────────────────────────────────────────

/// No two profiles share a name.
pub open spec fn names_distinct(names: Seq<Seq<char>>) -> bool {
    forall|i: int, j: int| 0 <= i < j < names.len() ==> #[trigger] names[i] != #[trigger] names[j]
}

proof fn lemma_without_named_names(ps: Seq<Profile>, name: Seq<char>)
    ensures
        forall|i: int|
            0 <= i < without_named(ps, name).len() ==> #[trigger] without_named(ps, name)[i].name@
                != name,
        has_name(profile_names(ps), name) || without_named(ps, name) == ps,
    decreases ps.len(),
{
    if ps.len() > 0 {
        lemma_without_named_names(ps.drop_last(), name);
        let rest = without_named(ps.drop_last(), name);
        if ps.last().name@ == name {
            assert(profile_names(ps)[ps.len() - 1] == name);
        } else {
            if !has_name(profile_names(ps), name) {
                assert(!has_name(profile_names(ps.drop_last()), name)) by {
                    if has_name(profile_names(ps.drop_last()), name) {
                        let i = choose|i: int|
                            0 <= i < profile_names(ps.drop_last()).len() && profile_names(
                                ps.drop_last(),
                            )[i] == name;
                        assert(profile_names(ps)[i] == name);
                    }
                }
                assert(ps.drop_last().push(ps.last()) =~= ps);
            }
        }
    }
}

/// When names are distinct, deleting by name removes at most one profile:
/// with two or more profiles, at least one is left.
pub proof fn lemma_delete_keeps_one(ps: Seq<Profile>, name: Seq<char>)
    requires
        names_distinct(profile_names(ps)),
    ensures
        without_named(ps, name).len() + 1 >= ps.len(),
        ps.len() > 1 ==> without_named(ps, name).len() > 0,
    decreases ps.len(),
{
    if ps.len() > 0 {
        let init = ps.drop_last();
        assert(names_distinct(profile_names(init))) by {
            assert forall|i: int, j: int| 0 <= i < j < profile_names(init).len() implies #[trigger] profile_names(init)[i]
                != #[trigger] profile_names(init)[j] by {
                assert(profile_names(ps)[i] != profile_names(ps)[j]);
            }
        }
        lemma_delete_keeps_one(init, name);
        if ps.last().name@ == name {
            // every other profile has another name, so none of them is removed
            assert(!has_name(profile_names(init), name)) by {
                if has_name(profile_names(init), name) {
                    let i = choose|i: int|
                        0 <= i < profile_names(init).len() && profile_names(init)[i] == name;
                    assert(profile_names(ps)[i] != profile_names(ps)[ps.len() - 1]);
                }
            }
            lemma_without_named_names(init, name);
        }
    }
}

/// A name accepted by `create_profile` (no existing name has the same lower
/// case) differs from every existing name, so distinct names stay distinct,
/// and the new profile is the one `active` finds.
pub proof fn lemma_created_profile_is_active(names: Seq<Seq<char>>, n: Seq<char>)
    requires
        !lower_clash(names, n),
    ensures
        forall|i: int| 0 <= i < names.len() ==> #[trigger] names[i] != n,
        names_distinct(names) ==> names_distinct(names.push(n)),
        active_index(names.push(n), n) == names.len(),
{
    assert forall|i: int| 0 <= i < names.len() implies #[trigger] names[i] != n by {
        if names[i] == n {
            assert(str_to_lowercase(names[i]) == str_to_lowercase(n));
        }
    }
    let all = names.push(n);
    assert forall|j: int| 0 <= j < names.len() implies #[trigger] all[j] != n by {
        assert(all[j] == names[j]);
    }
    lemma_first_named_at(all, n, 0, names.len() as int);
}

/// Switching to a profile that exists makes the active profile one with
/// that name.
pub proof fn lemma_switch_makes_active(names: Seq<Seq<char>>, name: Seq<char>)
    requires
        has_name(names, name),
    ensures
        0 <= active_index(names, name) < names.len(),
        names[active_index(names, name)] == name,
{
    let i = choose|i: int| 0 <= i < names.len() && names[i] == name;
    lemma_first_named_bounds(names, name, 0, i);
}

proof fn lemma_first_named_bounds(names: Seq<Seq<char>>, name: Seq<char>, k: int, i: int)
    requires
        0 <= k <= i < names.len(),
        names[i] == name,
    ensures
        k <= first_named_from(names, name, k) <= i,
        names[first_named_from(names, name, k)] == name,
    decreases i - k,
{
    if names[k] != name {
        lemma_first_named_bounds(names, name, k + 1, i);
    }
}

/// No two names are the same once lower-cased.
pub open spec fn lower_distinct(names: Seq<Seq<char>>) -> bool {
    forall|i: int, j: int|
        0 <= i < j < names.len() ==> #[trigger] str_to_lowercase(names[i]) != #[trigger] str_to_lowercase(
            names[j],
        )
}

/// Adding a name whose lower case no name has keeps the lower-cased names distinct.
proof fn lemma_lower_distinct_push(names: Seq<Seq<char>>, n: Seq<char>)
    requires
        !lower_clash(names, n),
    ensures
        lower_distinct(names) ==> lower_distinct(names.push(n)),
{
    let all = names.push(n);
    if lower_distinct(names) {
        assert forall|i: int, j: int| 0 <= i < j < all.len() implies #[trigger] str_to_lowercase(all[i])
            != #[trigger] str_to_lowercase(all[j]) by {
            assert(all[i] == names[i]);
            if j < names.len() {
                assert(all[j] == names[j]);
            } else {
                assert(all[j] == n);
                assert(str_to_lowercase(names[i]) != str_to_lowercase(n));
            }
        }
    }
}

/// Each profile left after deleting by name was one of the profiles.
proof fn lemma_without_named_from(ps: Seq<Profile>, name: Seq<char>)
    ensures
        forall|i: int|
            0 <= i < without_named(ps, name).len() ==> exists|j: int|
                0 <= j < ps.len() && #[trigger] without_named(ps, name)[i] == ps[j],
    decreases ps.len(),
{
    if ps.len() > 0 {
        let init = ps.drop_last();
        lemma_without_named_from(init, name);
        let rest = without_named(init, name);
        assert forall|i: int| 0 <= i < without_named(ps, name).len() implies exists|j: int|
            0 <= j < ps.len() && #[trigger] without_named(ps, name)[i] == ps[j] by {
            if i < rest.len() {
                let j = choose|j: int| 0 <= j < init.len() && rest[i] == init[j];
                assert(without_named(ps, name)[i] == rest[i]);
                assert(ps[j] == init[j]);
            } else {
                assert(without_named(ps, name)[i] == ps[ps.len() - 1]);
            }
        }
    }
}

/// A profile with another name survives deleting by name.
proof fn lemma_without_named_keeps(ps: Seq<Profile>, name: Seq<char>, j: int)
    requires
        0 <= j < ps.len(),
        ps[j].name@ != name,
    ensures
        exists|i: int|
            0 <= i < without_named(ps, name).len() && #[trigger] without_named(ps, name)[i] == ps[j],
    decreases ps.len(),
{
    let init = ps.drop_last();
    let rest = without_named(init, name);
    if j == ps.len() - 1 {
        assert(without_named(ps, name)[rest.len() as int] == ps[j]);
    } else {
        assert(init[j] == ps[j]);
        lemma_without_named_keeps(init, name, j);
        let i = choose|i: int| 0 <= i < rest.len() && #[trigger] rest[i] == init[j];
        assert(without_named(ps, name)[i] == rest[i]);
    }
}

/// Deleting by name keeps the lower-cased names distinct.
proof fn lemma_without_named_lower_distinct(ps: Seq<Profile>, name: Seq<char>)
    requires
        lower_distinct(profile_names(ps)),
    ensures
        lower_distinct(profile_names(without_named(ps, name))),
    decreases ps.len(),
{
    if ps.len() > 0 {
        let init = ps.drop_last();
        assert(lower_distinct(profile_names(init))) by {
            assert forall|i: int, j: int| 0 <= i < j < profile_names(init).len() implies #[trigger] str_to_lowercase(
                profile_names(init)[i],
            ) != #[trigger] str_to_lowercase(profile_names(init)[j]) by {
                assert(profile_names(ps)[i] == profile_names(init)[i]);
                assert(profile_names(ps)[j] == profile_names(init)[j]);
            }
        }
        lemma_without_named_lower_distinct(init, name);
        if ps.last().name@ != name {
            let rest = without_named(init, name);
            let all = without_named(ps, name);
            lemma_without_named_from(init, name);
            assert(all =~= rest.push(ps.last()));
            assert forall|i: int, j: int| 0 <= i < j < profile_names(all).len() implies #[trigger] str_to_lowercase(
                profile_names(all)[i],
            ) != #[trigger] str_to_lowercase(profile_names(all)[j]) by {
                if j < rest.len() {
                    assert(profile_names(rest)[i] == profile_names(all)[i]);
                    assert(profile_names(rest)[j] == profile_names(all)[j]);
                } else {
                    let k = choose|k: int| 0 <= k < init.len() && rest[i] == init[k];
                    assert(profile_names(ps)[k] == profile_names(all)[i]);
                    assert(profile_names(ps)[ps.len() - 1] == profile_names(all)[j]);
                }
            }
        }
    }
}

/// Deleting from a manager in good order keeps it in good order: a
/// profile is left, names stay distinct once lower-cased, and the active
/// name (kept, or the first remaining profile's) names a profile.
proof fn lemma_delete_keeps_valid(ps: Seq<Profile>, active: Seq<char>, name: Seq<char>)
    requires
        ps.len() >= 1,
        lower_distinct(profile_names(ps)),
        has_name(profile_names(ps), active),
    ensures
        ps.len() > 1 ==> without_named(ps, name).len() >= 1,
        lower_distinct(profile_names(without_named(ps, name))),
        active != name ==> has_name(profile_names(without_named(ps, name)), active),
{
    assert(names_distinct(profile_names(ps))) by {
        assert forall|i: int, j: int| 0 <= i < j < profile_names(ps).len() implies #[trigger] profile_names(ps)[i]
            != #[trigger] profile_names(ps)[j] by {
            assert(str_to_lowercase(profile_names(ps)[i]) != str_to_lowercase(profile_names(ps)[j]));
        }
    }
    lemma_delete_keeps_one(ps, name);
    lemma_without_named_lower_distinct(ps, name);
    if active != name {
        let j = choose|j: int| 0 <= j < profile_names(ps).len() && profile_names(ps)[j] == active;
        assert(ps[j].name@ == active);
        lemma_without_named_keeps(ps, name, j);
        let w = without_named(ps, name);
        let i = choose|i: int| 0 <= i < w.len() && #[trigger] w[i] == ps[j];
        assert(profile_names(w)[i] == active);
    }
}

/// A manager in good order can always delete by name: the active profile
/// is never the only one carrying that name while others remain.
pub proof fn lemma_valid_can_delete(m: &ProfileManager, name: Seq<char>)
    requires
        m.valid(),
    ensures
        !(m.profiles@.len() > 1 && m.active_name@ == name && without_named(m.profiles@, name).len()
            == 0),
{
    lemma_delete_keeps_valid(m.profiles@, m.active_name@, name);
}

} // verus!
