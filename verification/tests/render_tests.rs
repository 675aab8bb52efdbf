use conference_track_management::{render_schedule, Talk, Track};

#[test]
fn renders_minute_talk() {
    assert_eq!(Talk::new("Test".to_string(), 45).render(), "Test 45min");
}

#[test]
fn renders_lightning_talk() {
    assert_eq!(Talk::new("Light Test".to_string(), 5).render(), "Light Test lightning");
}

#[test]
fn renders_other_durations_with_min_suffix() {
    assert_eq!(Talk::new("Harder Test".to_string(), 60).render(), "Harder Test 60min");
    assert_eq!(Talk::new("Zero".to_string(), 0).render(), "Zero 0min");
    assert_eq!(Talk::new("Long".to_string(), 240).render(), "Long 240min");
}

#[test]
fn renders_session_with_running_clock() {
    let mut track = Track::new();
    assert!(track.add(Talk::new("Writing Fast Tests Against Enterprise Rails".to_string(), 60)));
    assert!(track.add(Talk::new("Overdoing it in Python".to_string(), 45)));
    assert!(track.add(Talk::new("Rails for Python Developers".to_string(), 5)));
    let text = track.morning.render();
    assert_eq!(
        text,
        "09:00:00 Writing Fast Tests Against Enterprise Rails 60min\n\
         10:00:00 Overdoing it in Python 45min\n\
         10:45:00 Rails for Python Developers lightning\n"
    );
}

#[test]
fn renders_track_with_lunch_and_networking() {
    let mut track = Track::new();
    assert!(track.add(Talk::new("Morning only".to_string(), 180)));
    assert!(track.add(Talk::new("Afternoon".to_string(), 30)));
    let text = track.render();
    assert_eq!(
        text,
        "09:00:00 Morning only 180min\n\
         12:00:00 Lunch\n\
         13:00:00 Afternoon 30min\n\
         17:00:00 Networking Event\n"
    );
}

#[test]
fn renders_schedule_with_numbered_tracks() {
    let mut first = Track::new();
    assert!(first.add(Talk::new("Alpha".to_string(), 180)));
    let mut second = Track::new();
    assert!(second.add(Talk::new("Beta".to_string(), 5)));
    let text = render_schedule(&vec![first, second]);
    assert_eq!(
        text,
        "Track 1\n\
         09:00:00 Alpha 180min\n\
         12:00:00 Lunch\n\
         17:00:00 Networking Event\n\
         \n\
         Track 2\n\
         09:00:00 Beta lightning\n\
         12:00:00 Lunch\n\
         17:00:00 Networking Event\n\
         \n"
    );
}
