use rusdle::stats::{Profile, ProfileManager};

fn names(m: &ProfileManager) -> Vec<String> {
    m.profiles.iter().map(|p| p.name.clone()).collect()
}

#[test]
fn new_manager_has_player_one() {
    let m = ProfileManager::new();
    assert_eq!(names(&m), vec!["Player 1".to_string()]);
    assert_eq!(m.active_name, "Player 1");
    assert_eq!(m.active().name, "Player 1");
    assert_eq!(m.active().stats.games_played, 0);
}

#[test]
fn new_profile_has_fresh_stats() {
    let p = Profile::new("Ann");
    assert_eq!(p.name, "Ann");
    assert_eq!(p.stats.games_played, 0);
    assert!(p.stats.first_word_freq.is_empty());
}

#[test]
fn create_profile_trims_and_activates() {
    let mut m = ProfileManager::new();
    assert_eq!(m.create_profile("  Ann  "), Ok(()));
    assert_eq!(names(&m), vec!["Player 1".to_string(), "Ann".to_string()]);
    assert_eq!(m.active_name, "Ann");
    assert_eq!(m.active().name, "Ann");
}

#[test]
fn create_profile_errors() {
    let mut m = ProfileManager::new();
    assert_eq!(m.create_profile("   "), Err("Name cannot be empty"));
    assert_eq!(m.create_profile(""), Err("Name cannot be empty"));
    assert_eq!(m.create_profile("abcdefghijklmnopqrstu"), Err("Max 20 characters"));
    assert_eq!(m.create_profile("PLAYER 1"), Err("Name already taken"));
    assert_eq!(names(&m), vec!["Player 1".to_string()]);
    assert_eq!(m.active_name, "Player 1");
}

#[test]
fn name_length_is_counted_in_bytes() {
    let mut m = ProfileManager::new();
    // 20 ASCII bytes are fine
    assert_eq!(m.create_profile("abcdefghijklmnopqrst"), Ok(()));
    // ten two-byte characters make twenty bytes; eleven make twenty-two
    assert_eq!(m.create_profile("éééééééééé"), Ok(()));
    assert_eq!(m.create_profile("ééééééééééé"), Err("Max 20 characters"));
}

#[test]
fn switch_to_existing_profile_only() {
    let mut m = ProfileManager::new();
    m.create_profile("Ann").unwrap();
    m.switch_to("Player 1");
    assert_eq!(m.active().name, "Player 1");
    m.switch_to("Nobody");
    assert_eq!(m.active_name, "Player 1");
}

#[test]
fn active_mut_changes_the_active_profile() {
    let mut m = ProfileManager::new();
    m.create_profile("Ann").unwrap();
    m.active_mut().stats.record_game_on(true, 2, 10, None, 5);
    assert_eq!(m.profiles[1].stats.games_won, 1);
    assert_eq!(m.profiles[0].stats.games_won, 0);
}

#[test]
fn active_falls_back_to_the_first_profile() {
    let mut m = ProfileManager::new();
    m.create_profile("Ann").unwrap();
    m.active_name = "Ghost".to_string();
    assert_eq!(m.active().name, "Player 1");
}

#[test]
fn the_last_profile_cannot_be_deleted() {
    let mut m = ProfileManager::new();
    assert!(!m.delete_profile("Player 1"));
    assert_eq!(names(&m), vec!["Player 1".to_string()]);
}

#[test]
fn deleting_the_active_profile_activates_the_first() {
    let mut m = ProfileManager::new();
    m.create_profile("Ann").unwrap();
    m.create_profile("Bob").unwrap();
    assert!(m.delete_profile("Bob"));
    assert_eq!(names(&m), vec!["Player 1".to_string(), "Ann".to_string()]);
    assert_eq!(m.active_name, "Player 1");
}

#[test]
fn deleting_another_profile_keeps_the_active_one() {
    let mut m = ProfileManager::new();
    m.create_profile("Ann").unwrap();
    m.create_profile("Bob").unwrap();
    assert!(m.delete_profile("Player 1"));
    assert_eq!(names(&m), vec!["Ann".to_string(), "Bob".to_string()]);
    assert_eq!(m.active_name, "Bob");
    assert!(m.delete_profile("Nobody"));
    assert_eq!(names(&m), vec!["Ann".to_string(), "Bob".to_string()]);
}

fn well_kept(m: &ProfileManager) -> bool {
    let lower: Vec<String> = m.profiles.iter().map(|p| p.name.to_lowercase()).collect();
    let distinct = lower.iter().enumerate().all(|(i, a)| lower.iter().skip(i + 1).all(|b| a != b));
    !m.profiles.is_empty() && distinct && m.profiles.iter().any(|p| p.name == m.active_name)
}

#[test]
fn the_manager_stays_in_good_order() {
    let mut m = ProfileManager::new();
    assert!(well_kept(&m));
    m.create_profile("Ann").unwrap();
    assert!(well_kept(&m));
    let _ = m.create_profile("ANN");
    assert!(well_kept(&m));
    m.switch_to("Player 1");
    assert!(well_kept(&m));
    m.delete_profile("Player 1");
    assert!(well_kept(&m));
    m.delete_profile("Ann");
    assert!(well_kept(&m));
    assert_eq!(m.profiles.len(), 1);
}

#[test]
fn a_profile_keeps_its_creation_time() {
    let p = Profile::created_at("Ann", 1_700_000_000);
    assert_eq!(p.name, "Ann");
    assert_eq!(p.created_epoch, 1_700_000_000);
    assert_eq!(p.stats.games_played, 0);
}

#[test]
fn create_profile_at_records_the_creation_time() {
    let mut m = ProfileManager::new();
    assert_eq!(m.create_profile_at(" Bob ", 42), Ok(()));
    assert_eq!(m.profiles[1].name, "Bob");
    assert_eq!(m.profiles[1].created_epoch, 42);
    assert_eq!(m.active_name, "Bob");
    assert_eq!(m.create_profile_at("bob", 43), Err("Name already taken"));
    assert_eq!(m.profiles.len(), 2);
}
