use conference_track_management::{ScheduleError, Session, Talk, Track};

#[test]
fn fills_morning_then_afternoon() {
    let mut track = Track::new();
    let morning_talk = Talk::new("Filling morning session".to_string(), 180);
    let afternoon_talk = Talk::new("Filling afternoon session".to_string(), 240);
    assert_eq!(track.add(morning_talk), true);
    assert_eq!(track.add(afternoon_talk), true);
    assert_eq!(track.morning.talks.len(), 1);
    assert_eq!(track.morning.talks[0].duration, 180);
    assert_eq!(track.afternoon.talks.len(), 1);
    assert_eq!(track.afternoon.talks[0].duration, 240);
}

#[test]
fn full_track_rejects_and_stays_unchanged() {
    let mut track = Track::new();
    assert!(track.add(Talk::new("Filling morning session".to_string(), 180)));
    assert!(track.add(Talk::new("Filling afternoon session".to_string(), 240)));
    let before_morning = track.morning.talks.len();
    let before_afternoon = track.afternoon.talks.len();
    let overflow = Talk::new("Overflowing talk".to_string(), 60);
    assert!(!track.fits(&overflow));
    assert_eq!(track.add(overflow), false);
    assert_eq!(track.morning.talks.len(), before_morning);
    assert_eq!(track.afternoon.talks.len(), before_afternoon);
}

#[test]
fn morning_first_bias() {
    // an empty track has room in both sessions: the talk must land in the
    // morning
    let mut track = Track::new();
    assert!(track.add(Talk::new("Could go either way".to_string(), 100)));
    assert_eq!(track.morning.talks.len(), 1);
    assert_eq!(track.afternoon.talks.len(), 0);
}

#[test]
fn track_windows_are_the_standard_day() {
    let track = Track::new();
    assert_eq!(track.morning.get_end_time(), 12 * 60);
    assert_eq!(track.morning.get_total_time(), 180);
    assert_eq!(track.afternoon.get_end_time(), 17 * 60);
    assert_eq!(track.afternoon.get_total_time(), 240);
}

#[test]
fn session_tracks_capacity() {
    let mut session = Session::new(9 * 60, 11 * 60).unwrap();
    session.add(Talk::new("Common Ruby Errors".to_string(), 45));
    session.add(Talk::new("Rails for Python Developers".to_string(), 5));
    session.add(Talk::new("Communicating Over Distance".to_string(), 60));
    assert_eq!(session.get_talk_duration(), 110);
    assert_eq!(session.get_total_time(), 120);
    assert!(session.fits(&Talk::new("A short talk".to_string(), 10)));
    assert!(!session.fits(&Talk::new("A long talk".to_string(), 60)));
}

#[test]
fn session_add_is_a_silent_no_op_when_full() {
    let mut session = Session::new(0, 30).unwrap();
    session.add(Talk::new("Fits exactly".to_string(), 30));
    assert_eq!(session.get_talk_duration(), 30);
    session.add(Talk::new("Does not fit".to_string(), 1));
    assert_eq!(session.talks.len(), 1);
    assert_eq!(session.get_talk_duration(), 30);
}

#[test]
fn empty_window_is_invalid() {
    assert_eq!(Session::new(10, 10).unwrap_err(), ScheduleError::InvalidWindow);
    assert_eq!(Session::new(20, 10).unwrap_err(), ScheduleError::InvalidWindow);
}
