use conference_track_management::{ScheduleError, Talk};

#[test]
fn parses_minute_talks() {
    assert_eq!(
        Talk::from_str("> Common Ruby Errors 45min").unwrap(),
        Talk::new("Common Ruby Errors".to_string(), 45)
    );
    assert_eq!(
        Talk::from_str("> Test 45min").unwrap(),
        Talk::new("Test".to_string(), 45)
    );
}

#[test]
fn parses_lightning_talks() {
    assert_eq!(
        Talk::from_str("> Rails for Python Developers lightning").unwrap(),
        Talk::new("Rails for Python Developers".to_string(), 5)
    );
    assert_eq!(
        Talk::from_str("> Light Test lightning").unwrap(),
        Talk::new("Light Test".to_string(), 5)
    );
    assert_eq!(
        Talk::from_str("Light lightning Test").unwrap(),
        Talk::new("Light Test".to_string(), 5)
    );
}

#[test]
fn duration_token_may_stand_anywhere() {
    assert_eq!(
        Talk::from_str("> 60min Harder Test").unwrap(),
        Talk::new("Harder Test".to_string(), 60)
    );
    assert_eq!(
        Talk::from_str("60min Hardest Test").unwrap(),
        Talk::new("Hardest Test".to_string(), 60)
    );
    assert_eq!(
        Talk::from_str("Hardest 60min Test").unwrap(),
        Talk::new("Hardest Test".to_string(), 60)
    );
}

#[test]
fn line_without_duration_defaults_to_five_minutes() {
    assert_eq!(
        Talk::from_str("No duration here").unwrap(),
        Talk::new("No duration here".to_string(), 5)
    );
    assert_eq!(Talk::from_str("").unwrap(), Talk::new(String::new(), 5));
    assert_eq!(Talk::from_str("   \t ").unwrap(), Talk::new(String::new(), 5));
}

#[test]
fn min_word_with_other_letters_is_description() {
    assert_eq!(
        Talk::from_str("admin stuff 30min").unwrap(),
        Talk::new("admin stuff".to_string(), 30)
    );
}

#[test]
fn last_duration_token_wins() {
    assert_eq!(
        Talk::from_str("One 45min Two 30min").unwrap(),
        Talk::new("One Two".to_string(), 30)
    );
}

#[test]
fn bare_min_token_fails_the_line() {
    assert_eq!(
        Talk::from_str("Some talk min").unwrap_err(),
        ScheduleError::ParseFailure
    );
}

#[test]
fn oversized_minute_count_fails_the_line() {
    assert_eq!(
        Talk::from_str("Big talk 99999999999min").unwrap_err(),
        ScheduleError::ParseFailure
    );
    // the largest representable minute count still parses
    assert_eq!(
        Talk::from_str("Edge 4294967295min").unwrap(),
        Talk::new("Edge".to_string(), 4294967295)
    );
}
