use metro::events::Metro as EventLog;
use metro::{Event, Metro, RenderingSettings, TrackId, DETACHED};

fn count_stops(events: &[Event]) -> usize {
    events.iter().filter(|e| matches!(e, Event::StopTrack(_))).count()
}

#[test]
fn new_registry_has_no_events() {
    let metro = Metro::new();
    assert!(metro.to_events().is_empty());
    assert_eq!(metro.to_string(), "");
}

#[test]
fn new_track_skips_the_seed_track() {
    let mut metro = Metro::new();
    assert!(metro.get_track(TrackId(0)).is_some());
    let t = metro.new_track();
    assert_eq!(t.id(), TrackId(1));
    let t2 = metro.new_track();
    assert_eq!(t2.id(), TrackId(2));
    let events = metro.to_events();
    assert_eq!(events.len(), 2);
    assert!(matches!(events[0], Event::StartTrack(TrackId(1))));
    assert!(matches!(events[1], Event::StartTrack(TrackId(2))));
}

#[test]
fn new_track_skips_ids_taken_explicitly() {
    let mut metro = Metro::new();
    let a = metro.new_track_with_id(TrackId(1));
    let b = metro.new_track_with_id(TrackId(2));
    let c = metro.new_track();
    assert_eq!(c.id(), TrackId(3));
    assert_ne!(c.id(), a.id());
    assert_ne!(c.id(), b.id());
    let d = c.split(&mut metro);
    assert_eq!(d.id(), TrackId(4));
    let events = metro.to_events();
    assert_eq!(events.len(), 4);
    assert!(matches!(events[2], Event::StartTrack(TrackId(3))));
    assert!(matches!(events[3], Event::SplitTrack(TrackId(3), TrackId(4))));
}

#[test]
fn stopped_counter_ids_are_not_handed_out_again() {
    let mut metro = Metro::new();
    let t = metro.new_track();
    assert_eq!(t.id(), TrackId(1));
    t.stop(&mut metro);
    let u = metro.new_track();
    assert_eq!(u.id(), TrackId(2));
}

#[test]
fn reserved_id_is_never_started() {
    let mut metro = Metro::new();
    let t = metro.new_track_with_id(TrackId(DETACHED));
    assert!(t.is_dangling(&metro));
    let seed = metro.get_track(TrackId(0)).unwrap();
    let s = seed.split_with_id(&mut metro, TrackId(DETACHED));
    assert!(s.is_dangling(&metro));
    assert!(metro.to_events().is_empty());
    metro.add_station("Detached");
    assert!(!metro.to_string().contains('╪'));
}

#[test]
fn station_on_track_zero() {
    let mut metro = Metro::new();
    let t = metro.get_track(TrackId(0)).unwrap();
    t.add_station(&mut metro, "Hello");
    let expected = "\u{1b}[38;5;92m╪     \u{1b}[39m   Hello\n\u{1b}[38;5;92m│     \u{1b}[39m\n";
    assert_eq!(metro.to_string(), expected);
}

#[test]
fn split_then_join_restores_active_tracks() {
    let mut metro = Metro::new();
    let t0 = metro.get_track(TrackId(0)).unwrap();
    let t1 = t0.split(&mut metro);
    assert_eq!(t1.id(), TrackId(1));
    assert!(!t1.is_dangling(&metro));
    t1.join(&mut metro, &t0);
    assert!(t1.is_dangling(&metro));
    assert!(!t0.is_dangling(&metro));
    let events = metro.to_events();
    assert_eq!(events.len(), 2);
    assert!(matches!(events[0], Event::SplitTrack(TrackId(0), TrackId(1))));
    assert!(matches!(events[1], Event::JoinTrack(TrackId(1), TrackId(0))));
    let mut log = EventLog::with_settings(RenderingSettings::default().color(false));
    for e in events {
        log.push(e);
    }
    assert_eq!(log.to_string(), "├─────┐     \n├─────┘     \n");
}

#[test]
fn double_stop_through_aliases_records_one_stop() {
    let mut metro = Metro::new();
    let t = metro.new_track_with_id(TrackId(1));
    let alias = metro.get_track(TrackId(1)).unwrap();
    assert_eq!(alias.id(), t.id());
    t.stop(&mut metro);
    assert!(alias.is_dangling(&metro));
    alias.stop(&mut metro);
    let events = metro.to_events();
    assert_eq!(events.len(), 2);
    assert_eq!(count_stops(&events), 1);
    assert!(metro.get_track(TrackId(1)).is_none());
}

#[test]
fn new_track_with_active_id_is_an_alias() {
    let mut metro = Metro::new();
    let a = metro.new_track_with_id(TrackId(3));
    let b = metro.new_track_with_id(TrackId(3));
    assert_eq!(a.id(), b.id());
    assert_eq!(metro.to_events().len(), 1);
}

#[test]
fn stopped_id_can_be_reused() {
    let mut metro = Metro::new();
    let t = metro.new_track_with_id(TrackId(2));
    let alias = metro.get_track(TrackId(2)).unwrap();
    t.stop(&mut metro);
    assert!(alias.is_dangling(&metro));
    let again = metro.new_track_with_id(alias.id());
    assert!(!alias.is_dangling(&metro));
    assert!(!again.is_dangling(&metro));
    assert_eq!(metro.to_events().len(), 3);
}

#[test]
fn detached_station_uses_reserved_id() {
    let mut metro = Metro::new();
    metro.add_station("Hello\nWorld");
    let events = metro.to_events();
    assert_eq!(events.len(), 1);
    match &events[0] {
        Event::Station(id, text) => {
            assert_eq!(*id, TrackId(DETACHED));
            assert_eq!(text, "Hello\nWorld");
        }
        _ => panic!("expected a station"),
    }
    let out = metro.to_string();
    assert!(!out.contains('╪'));
}

#[test]
fn join_into_itself_is_a_stop() {
    let mut metro = Metro::new();
    let t = metro.new_track_with_id(TrackId(1));
    let alias = metro.get_track(TrackId(1)).unwrap();
    t.join(&mut metro, &alias);
    let events = metro.to_events();
    assert_eq!(events.len(), 2);
    assert!(matches!(events[1], Event::StopTrack(TrackId(1))));
}

#[test]
fn join_into_missing_target_is_a_stop() {
    let mut metro = Metro::new();
    let t = metro.new_track_with_id(TrackId(1));
    let gone = metro.new_track_with_id(TrackId(2));
    let gone_alias = metro.get_track(TrackId(2)).unwrap();
    gone.stop(&mut metro);
    t.join(&mut metro, &gone_alias);
    let events = metro.to_events();
    assert!(matches!(events[3], Event::StopTrack(TrackId(1))));
    assert_eq!(events.len(), 4);
}

#[test]
fn split_off_dangling_track_starts_a_track() {
    let mut metro = Metro::new();
    let t = metro.new_track_with_id(TrackId(1));
    let alias = metro.get_track(TrackId(1)).unwrap();
    t.stop(&mut metro);
    let child = alias.split_with_id(&mut metro, TrackId(5));
    assert_eq!(child.id(), TrackId(5));
    let events = metro.to_events();
    assert!(matches!(events[2], Event::StartTrack(TrackId(5))));
}

#[test]
fn split_with_active_id_is_an_alias() {
    let mut metro = Metro::new();
    let t0 = metro.new_track();
    let t1 = metro.new_track_with_id(TrackId(1));
    let again = t0.split_with_id(&mut metro, TrackId(1));
    assert_eq!(again.id(), t1.id());
    assert_eq!(metro.to_events().len(), 1);
}

#[test]
fn events_round_trip_through_the_renderer() {
    let mut metro = Metro::new();
    let t1 = metro.new_track();
    t1.add_station(&mut metro, "Station 1");
    let t2 = t1.split(&mut metro);
    t2.add_station(&mut metro, "Station 2");
    let t3 = t2.split(&mut metro);
    t3.add_station(&mut metro, "Station 3");
    metro.add_station("Detached");
    t3.join(&mut metro, &t1);
    t2.stop(&mut metro);
    t1.add_station(&mut metro, "Station 4");
    let direct = metro.to_string();
    let mut log = EventLog::default();
    for e in metro.to_events() {
        log.push(e);
    }
    assert_eq!(log.to_string(), direct);
    assert_eq!(metro.to_vec(), direct.clone().into_bytes());
    let moved = metro.into_events();
    let mut log2 = EventLog::default();
    for e in moved {
        log2.push(e);
    }
    assert_eq!(log2.to_string(), direct);
}

#[test]
fn builder_logs_replay_without_duplicates() {
    let mut metro = Metro::new();
    let t0 = metro.new_track();
    let t1 = t0.split(&mut metro);
    let t2 = t1.split(&mut metro);
    let again = metro.new_track_with_id(TrackId(2));
    t2.join(&mut metro, &t0);
    let t3 = metro.new_track_with_id(TrackId(2));
    let _ = again;
    let _ = t3;
    let mut active: Vec<TrackId> = vec![TrackId(0)];
    for e in metro.to_events() {
        match e {
            Event::StartTrack(id) => active.push(id),
            Event::StartTracks(ids) => active.extend(ids),
            Event::StopTrack(id) | Event::JoinTrack(id, _) => active.retain(|t| *t != id),
            Event::SplitTrack(p, c) => {
                let i = active.iter().position(|t| *t == p).unwrap();
                active.insert(i + 1, c);
            }
            _ => {}
        }
        let mut seen = active.clone();
        seen.sort_by_key(|t| t.0);
        seen.dedup();
        assert_eq!(seen.len(), active.len());
    }
    assert!(!metro.to_string().is_empty());
}
