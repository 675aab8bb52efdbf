use conference_track_management::{organize, sort_talks_desc, ScheduleError, Talk, Track};

fn fixture_lines() -> Vec<&'static str> {
    vec![
        "> Writing Fast Tests Against Enterprise Rails 60min",
        "> Overdoing it in Python 45min",
        "> Lua for the Masses 30min",
        "> Ruby Errors from Mismatched Gem Versions 45min",
        "> Common Ruby Errors 45min",
        "> Rails for Python Developers lightning",
        "> Communicating Over Distance 60min",
        "> Accounting-Driven Development 45min",
        "> Woah 30min",
        "> Sit Down and Write 30min",
        "> Pair Programming vs Noise 45min",
        "> Rails Magic 60min",
        "> Ruby on Rails: Why We Should Move On 60min",
        "> Clojure Ate Scala (on my project) 45min",
        "> Programming in the Boondocks of Seattle 30min",
        "> Ruby vs. Clojure for Back-End Development 30min",
        "> Ruby on Rails Legacy App Maintenance 60min",
        "> A World Without HackerNews 30min",
        "> User Interface CSS in Rails Apps 30min",
    ]
}

fn fixture_talks() -> Vec<Talk> {
    fixture_lines().iter().map(|l| Talk::from_str(l).unwrap()).collect()
}

fn scheduled_talks(tracks: &[Track]) -> Vec<(String, u32)> {
    let mut out: Vec<(String, u32)> = Vec::new();
    for track in tracks {
        for talk in &track.morning.talks {
            out.push((talk.description.clone(), talk.duration));
        }
        for talk in &track.afternoon.talks {
            out.push((talk.description.clone(), talk.duration));
        }
    }
    out
}

#[test]
fn sample_set_terminates_and_covers_every_talk() {
    let talks = fixture_talks();
    let expected: u32 = talks.iter().map(|t| t.duration).sum();
    assert_eq!(talks.len(), 19);
    let tracks = organize(talks).unwrap();

    // every session respects its capacity
    for track in &tracks {
        assert!(track.morning.get_talk_duration() <= track.morning.get_total_time());
        assert!(track.afternoon.get_talk_duration() <= track.afternoon.get_total_time());
    }

    // coverage: the scheduled talks are exactly the input talks
    let mut placed = scheduled_talks(&tracks);
    let mut input: Vec<(String, u32)> =
        fixture_talks().iter().map(|t| (t.description.clone(), t.duration)).collect();
    placed.sort();
    input.sort();
    assert_eq!(placed, input);

    // at least the theoretical lower bound of tracks: total duration over a
    // seven-hour day, rounded up
    let lower_bound = (expected + (7 * 60 - 1)) / (7 * 60);
    assert!(tracks.len() as u32 >= lower_bound);
}

#[test]
fn organize_is_deterministic() {
    let first = organize(fixture_talks()).unwrap();
    let second = organize(fixture_talks()).unwrap();
    assert_eq!(first, second);
}

#[test]
fn talks_are_considered_longest_first() {
    let talks = vec![
        Talk::new("a".to_string(), 30),
        Talk::new("b".to_string(), 60),
        Talk::new("c".to_string(), 30),
        Talk::new("d".to_string(), 45),
    ];
    let sorted = sort_talks_desc(talks);
    let durations: Vec<u32> = sorted.iter().map(|t| t.duration).collect();
    assert_eq!(durations, vec![60, 45, 30, 30]);
    // the sort is stable: equal durations keep their input order
    assert_eq!(sorted[2].description, "a");
    assert_eq!(sorted[3].description, "c");
}

#[test]
fn oversized_talk_is_reported_not_looped_on() {
    let long = Talk::new("A five hour epic".to_string(), 300);
    match organize(vec![long]).unwrap_err() {
        ScheduleError::UnplaceableTalk(t) => {
            assert_eq!(t, Talk::new("A five hour epic".to_string(), 300));
        }
        other => panic!("expected an unplaceable talk, got {:?}", other),
    }
}

#[test]
fn oversized_talk_among_others_is_still_reported() {
    let talks = vec![
        Talk::new("Fits".to_string(), 60),
        Talk::new("Too long".to_string(), 241),
        Talk::new("Also fits".to_string(), 240),
    ];
    match organize(talks).unwrap_err() {
        ScheduleError::UnplaceableTalk(t) => assert_eq!(t.duration, 241),
        other => panic!("expected an unplaceable talk, got {:?}", other),
    }
}

#[test]
fn exactly_full_day_fits_one_track() {
    let talks = vec![
        Talk::new("Morning exactly".to_string(), 180),
        Talk::new("Afternoon exactly".to_string(), 240),
    ];
    let tracks = organize(talks).unwrap();
    assert_eq!(tracks.len(), 1);
    assert_eq!(tracks[0].morning.get_talk_duration(), 180);
    assert_eq!(tracks[0].afternoon.get_talk_duration(), 240);
}

#[test]
fn no_talks_means_no_tracks() {
    let tracks = organize(Vec::new()).unwrap();
    assert!(tracks.is_empty());
}
