use rusdle::stats::Stats;

fn played(s: &Stats) -> u32 {
    s.guess_dist.iter().sum()
}

#[test]
fn default_stats_are_fresh() {
    let s = Stats::default();
    assert_eq!(s.games_played, 0);
    assert_eq!(s.games_won, 0);
    assert_eq!(s.current_streak, 0);
    assert_eq!(s.max_streak, 0);
    assert_eq!(s.guess_dist, [0; 6]);
    assert_eq!(s.fastest_win_secs, None);
    assert_eq!(s.total_guesses_on_wins, 0);
    assert_eq!(s.total_time_secs, 0);
    assert_eq!(s.last_epoch_day, None);
    assert!(s.first_word_freq.is_empty());
    assert_eq!(s.fastest_fmt(), None);
    assert_eq!(s.favorite_start(), None);
    assert_eq!(s.total_time_fmt(), "0m 0s");
}

#[test]
fn a_win_updates_counts_distribution_and_fastest() {
    let mut s = Stats::default();
    s.record_game_on(true, 3, 95, Some("Crane"), 100);
    assert_eq!(s.games_played, 1);
    assert_eq!(s.games_won, 1);
    assert_eq!(s.guess_dist, [0, 0, 1, 0, 0, 0]);
    assert_eq!(s.total_guesses_on_wins, 3);
    assert_eq!(s.total_time_secs, 95);
    assert_eq!(s.current_streak, 1);
    assert_eq!(s.max_streak, 1);
    assert_eq!(s.fastest_win_secs, Some(95));
    assert_eq!(s.last_epoch_day, Some(100));
    assert_eq!(s.first_word_freq, vec![("crane".to_string(), 1)]);
}

#[test]
fn distribution_slots_clamp() {
    let mut s = Stats::default();
    s.record_game_on(true, 0, 10, None, 1);
    s.record_game_on(true, 9, 10, None, 1);
    assert_eq!(s.guess_dist, [1, 0, 0, 0, 0, 1]);
    assert_eq!(played(&s), s.games_won);
}

#[test]
fn streak_grows_on_consecutive_days_and_not_twice_a_day() {
    let mut s = Stats::default();
    s.record_game_on(true, 2, 30, None, 10);
    s.record_game_on(true, 2, 30, None, 11);
    assert_eq!(s.current_streak, 2);
    s.record_game_on(true, 2, 30, None, 11);
    assert_eq!(s.current_streak, 2);
    s.record_game_on(true, 2, 30, None, 13);
    assert_eq!(s.current_streak, 1);
    assert_eq!(s.max_streak, 2);
}

#[test]
fn a_loss_breaks_the_streak_unless_same_day() {
    let mut s = Stats::default();
    s.record_game_on(true, 2, 30, None, 10);
    s.record_game_on(false, 6, 30, None, 10);
    assert_eq!(s.current_streak, 1);
    s.record_game_on(false, 6, 30, None, 11);
    assert_eq!(s.current_streak, 0);
    assert_eq!(s.max_streak, 1);
    assert_eq!(s.games_played, 3);
    assert_eq!(s.games_won, 1);
}

#[test]
fn fastest_is_the_minimum_and_at_least_one_second() {
    let mut s = Stats::default();
    s.record_game_on(true, 2, 130, None, 1);
    s.record_game_on(true, 2, 200, None, 1);
    assert_eq!(s.fastest_win_secs, Some(130));
    s.record_game_on(true, 2, 0, None, 1);
    assert_eq!(s.fastest_win_secs, Some(1));
}

#[test]
fn fastest_fmt_is_minutes_and_two_digit_seconds() {
    let mut s = Stats::default();
    s.fastest_win_secs = Some(125);
    assert_eq!(s.fastest_fmt().as_deref(), Some("2:05"));
    s.fastest_win_secs = Some(59);
    assert_eq!(s.fastest_fmt().as_deref(), Some("0:59"));
    s.fastest_win_secs = Some(3600);
    assert_eq!(s.fastest_fmt().as_deref(), Some("60:00"));
}

#[test]
fn total_time_fmt_picks_units() {
    let mut s = Stats::default();
    s.total_time_secs = 45;
    assert_eq!(s.total_time_fmt(), "0m 45s");
    s.total_time_secs = 125;
    assert_eq!(s.total_time_fmt(), "2m 5s");
    s.total_time_secs = 3 * 3600 + 7 * 60 + 9;
    assert_eq!(s.total_time_fmt(), "3h 7m");
    s.total_time_secs = 3600;
    assert_eq!(s.total_time_fmt(), "1h 0m");
}

#[test]
fn first_words_are_counted_lowercased() {
    let mut s = Stats::default();
    s.record_game_on(false, 6, 1, Some("SLATE"), 1);
    s.record_game_on(true, 2, 1, Some("slate"), 1);
    s.record_game_on(true, 2, 1, Some("crane"), 1);
    assert_eq!(
        s.first_word_freq,
        vec![("slate".to_string(), 2), ("crane".to_string(), 1)]
    );
    assert_eq!(s.favorite_start().as_deref(), Some("SLATE"));
}

#[test]
fn favorite_start_prefers_the_later_word_on_ties() {
    let mut s = Stats::default();
    s.record_game_on(true, 2, 1, Some("adieu"), 1);
    s.record_game_on(true, 2, 1, Some("crane"), 1);
    assert_eq!(s.favorite_start().as_deref(), Some("CRANE"));
}

#[test]
fn wins_never_exceed_games_and_distribution_sums_to_wins() {
    let mut s = Stats::default();
    let outcomes = [(true, 1), (false, 6), (true, 4), (true, 6), (false, 6), (true, 2)];
    for (day, (won, rows)) in outcomes.iter().enumerate() {
        s.record_game_on(*won, *rows, 20, None, day as u64);
        assert!(s.games_won <= s.games_played);
        assert_eq!(played(&s), s.games_won);
        assert!(s.current_streak <= s.max_streak);
        assert_eq!(s.fastest_win_secs.is_some(), s.games_won > 0);
    }
}

#[test]
fn record_game_uses_the_clock() {
    let mut s = Stats::default();
    s.record_game(true, 4, 42, Some("Crane"));
    assert_eq!(s.games_played, 1);
    assert_eq!(s.guess_dist[3], 1);
    assert!(s.last_epoch_day.is_some());
    assert_eq!(s.first_word_freq, vec![("crane".to_string(), 1)]);
}

#[test]
fn try_record_game_refuses_a_full_counter() {
    let mut s = Stats::default();
    s.games_played = u32::MAX;
    assert!(!s.try_record_game(true, 3, 10, None));
    assert_eq!(s.games_played, u32::MAX);
    assert_eq!(s.games_won, 0);

    let mut s = Stats::default();
    s.first_word_freq.push(("crane".to_string(), u32::MAX));
    assert!(!s.try_record_game(false, 6, 10, Some("CRANE")));
    // another word's count is not in the way
    assert!(s.try_record_game(false, 6, 10, Some("slate")));
    assert_eq!(s.games_played, 1);
}

#[test]
fn try_record_game_records_like_record_game() {
    let mut s = Stats::default();
    assert!(s.try_record_game(true, 2, 30, Some("Adieu")));
    assert_eq!(s.games_won, 1);
    assert_eq!(s.guess_dist[1], 1);
    assert_eq!(s.first_word_freq, vec![("adieu".to_string(), 1)]);
}

#[test]
fn guesses_on_wins_match_the_distribution() {
    let mut s = Stats::default();
    for (day, rows) in [1u32, 4, 6, 2, 2].iter().enumerate() {
        s.record_game_on(true, *rows, 5, None, day as u64);
        let weighted: u32 = s.guess_dist.iter().enumerate().map(|(i, n)| (i as u32 + 1) * n).sum();
        assert_eq!(weighted, s.total_guesses_on_wins);
    }
}

#[test]
fn decimal_rendering() {
    assert_eq!(rusdle::text::decimal_string(0), "0");
    assert_eq!(rusdle::text::decimal_string(7), "7");
    assert_eq!(rusdle::text::decimal_string(1024), "1024");
    assert_eq!(rusdle::text::decimal_string(u64::MAX), u64::MAX.to_string());
}

#[test]
fn a_full_streak_is_no_obstacle_when_it_cannot_grow() {
    let mut s = Stats::default();
    s.current_streak = u32::MAX;
    s.max_streak = u32::MAX;
    // the last game was long ago, so today's win starts a new streak
    s.last_epoch_day = Some(0);
    assert!(s.try_record_game(true, 3, 10, None));
    assert_eq!(s.current_streak, 1);
    assert_eq!(s.games_won, 1);
}
