use metro::events::Metro as EventLog;
use metro::{color_index, Event, RenderingSettings, TrackId};

fn plain() -> RenderingSettings {
    RenderingSettings::default().color(false)
}

fn draw(events: Vec<Event>, settings: RenderingSettings) -> String {
    let mut log = EventLog::with_settings(settings);
    for e in events {
        log.push(e);
    }
    log.to_string()
}

fn strip_escapes(s: &str) -> String {
    let mut out = String::new();
    let mut in_escape = false;
    for c in s.chars() {
        if in_escape {
            if c == 'm' {
                in_escape = false;
            }
        } else if c == '\u{1b}' {
            in_escape = true;
        } else {
            out.push(c);
        }
    }
    out
}

#[test]
fn default_settings_values() {
    let s = RenderingSettings::default();
    assert_eq!(s.splat, 5);
    assert!(s.color);
    assert!(!s.rounded);
    let s = s.splat(2).color(false);
    assert_eq!(s.splat, 2);
    assert!(!s.color);
}

#[test]
fn empty_log_draws_nothing() {
    assert_eq!(draw(vec![], plain()), "");
}

#[test]
fn station_on_seed_track() {
    let out = draw(vec![Event::Station(TrackId(0), "Hello".to_string())], plain());
    assert_eq!(out, "╪        Hello\n│     \n");
}

#[test]
fn start_track_then_no_event() {
    let out = draw(vec![Event::StartTrack(TrackId(1)), Event::NoEvent], plain());
    assert_eq!(out, "│     │     \n");
}

#[test]
fn start_tracks_appends_each() {
    let out = draw(
        vec![Event::StartTracks(vec![TrackId(4), TrackId(5)]), Event::NoEvent],
        plain(),
    );
    assert_eq!(out, "│     │     │     \n");
}

#[test]
fn multi_line_station_on_three_rails() {
    let out = draw(
        vec![
            Event::StartTracks(vec![TrackId(1), TrackId(2)]),
            Event::Station(TrackId(1), "Hello\nWorld".to_string()),
        ],
        plain(),
    );
    assert_eq!(
        out,
        "│     ╪     │        Hello\n│     │     │        World\n│     │     │     \n"
    );
}

#[test]
fn station_text_aligns_to_widest_row() {
    let out = draw(
        vec![
            Event::StartTracks(vec![TrackId(1), TrackId(2)]),
            Event::StopTrack(TrackId(2)),
            Event::StopTrack(TrackId(1)),
            Event::Station(TrackId(0), "Hi".to_string()),
        ],
        plain(),
    );
    assert_eq!(
        out,
        "│     │     ┷     \n│     ┷     \n╪                    Hi\n│     \n"
    );
}

#[test]
fn station_on_unknown_track_marks_no_rail() {
    let out = draw(vec![Event::Station(TrackId(10), "x".to_string())], plain());
    assert_eq!(out, "│        x\n│     \n");
}

#[test]
fn station_lines_follow_line_breaks() {
    let out = draw(vec![Event::Station(TrackId(0), "a\r\nb\n".to_string())], plain());
    assert_eq!(out, "╪        a\n│        b\n│     \n");
}

#[test]
fn empty_station_draws_only_the_spacer() {
    let out = draw(vec![Event::Station(TrackId(0), String::new())], plain());
    assert_eq!(out, "│     \n");
}

#[test]
fn station_padding_counts_characters() {
    let out = draw(vec![Event::Station(TrackId(0), "é".to_string())], plain());
    assert_eq!(out, "╪        é\n│     \n");
}

#[test]
fn station_text_column_is_the_same_for_every_rail_count() {
    let out = draw(
        vec![
            Event::StartTracks(vec![TrackId(1), TrackId(2)]),
            Event::Station(TrackId(2), "wide".to_string()),
            Event::StopTrack(TrackId(2)),
            Event::Station(TrackId(1), "two".to_string()),
            Event::StopTrack(TrackId(1)),
            Event::Station(TrackId(0), "one".to_string()),
        ],
        plain(),
    );
    let columns: Vec<usize> = out
        .lines()
        .filter_map(|l| {
            let text = l.trim_start_matches(|c: char| !c.is_ascii_alphabetic());
            if text.is_empty() {
                None
            } else {
                Some(l.chars().count() - text.chars().count())
            }
        })
        .collect();
    assert_eq!(columns, vec![21, 21, 21]);
}

#[test]
fn stop_track_draws_ground() {
    let out = draw(
        vec![Event::StartTrack(TrackId(1)), Event::StopTrack(TrackId(1)), Event::NoEvent],
        plain(),
    );
    assert_eq!(out, "│     ┷     \n│     \n");
}

#[test]
fn split_from_single_track() {
    let out = draw(vec![Event::SplitTrack(TrackId(0), TrackId(1))], plain());
    assert_eq!(out, "├─────┐     \n");
}

#[test]
fn split_opens_a_gap() {
    let out = draw(
        vec![
            Event::StartTracks(vec![TrackId(1), TrackId(2)]),
            Event::SplitTrack(TrackId(1), TrackId(3)),
        ],
        plain(),
    );
    assert_eq!(
        out,
        "│     │     └─────┐     \n│     ├─────┐     │     \n"
    );
}

#[test]
fn join_leftward_closes_the_gap() {
    let out = draw(
        vec![
            Event::StartTracks(vec![TrackId(1), TrackId(2), TrackId(3), TrackId(4), TrackId(5)]),
            Event::JoinTrack(TrackId(4), TrackId(0)),
        ],
        plain(),
    );
    assert_eq!(
        out,
        "├───────────────────────┘     │     \n│     │     │     │     ┌─────┘\n"
    );
}

#[test]
fn join_rightward() {
    let out = draw(
        vec![
            Event::StartTracks(vec![TrackId(1), TrackId(2)]),
            Event::JoinTrack(TrackId(0), TrackId(2)),
        ],
        plain(),
    );
    assert_eq!(out, "└────────────────┤\n│     ┌─────┘\n");
}

#[test]
fn splat_changes_spacing() {
    let out = draw(
        vec![Event::StartTrack(TrackId(1)), Event::NoEvent],
        RenderingSettings::default().splat(1).color(false),
    );
    assert_eq!(out, "│ │ \n");
}

#[test]
fn color_index_formula() {
    assert_eq!(color_index(TrackId(0)), 92);
    assert_eq!(color_index(TrackId(1)), 95);
    assert_eq!(color_index(TrackId(300)), 113);
    assert_eq!(color_index(TrackId(usize::MAX)), 94);
    assert_eq!(color_index(TrackId(7)), color_index(TrackId(7)));
}

#[test]
fn colored_station_row() {
    let out = draw(
        vec![Event::Station(TrackId(0), "Hello".to_string())],
        RenderingSettings::default(),
    );
    assert_eq!(
        out,
        "\u{1b}[38;5;92m╪     \u{1b}[39m   Hello\n\u{1b}[38;5;92m│     \u{1b}[39m\n"
    );
}

#[test]
fn colored_output_strips_to_plain_output() {
    let events = || {
        vec![
            Event::StartTracks(vec![TrackId(1), TrackId(2)]),
            Event::Station(TrackId(1), "Hello\nWorld".to_string()),
            Event::SplitTrack(TrackId(1), TrackId(3)),
            Event::JoinTrack(TrackId(3), TrackId(0)),
            Event::StopTrack(TrackId(2)),
            Event::NoEvent,
        ]
    };
    let colored = draw(events(), RenderingSettings::default());
    let uncolored = draw(events(), plain());
    assert_ne!(colored, uncolored);
    assert_eq!(strip_escapes(&colored), uncolored);
}

#[test]
fn rendering_twice_is_identical() {
    let mut log = EventLog::with_settings(RenderingSettings::default());
    log.push(Event::StartTrack(TrackId(1)));
    log.push(Event::Station(TrackId(1), "s".to_string()));
    assert_eq!(log.to_string(), log.to_string());
    assert_eq!(log.to_vec(), log.to_vec());
}

#[test]
fn to_vec_is_the_utf8_of_to_string() {
    let mut log = EventLog::with_settings(plain());
    log.push(Event::Station(TrackId(0), "Hello".to_string()));
    assert_eq!(log.to_vec(), log.to_string().into_bytes());
}

#[test]
fn default_log_is_colored() {
    let mut log = EventLog::default();
    log.push(Event::NoEvent);
    assert_eq!(log.to_string(), "\u{1b}[38;5;92m│     \u{1b}[39m\n");
}

#[test]
fn track_id_conversions() {
    let id: TrackId = TrackId::from(7usize);
    assert_eq!(id, TrackId(7));
    let raw: usize = usize::from(id);
    assert_eq!(raw, 7);
}

#[test]
fn replayable_logs_are_recognised() {
    let mut log = EventLog::with_settings(plain());
    log.push(Event::StartTrack(TrackId(1)));
    log.push(Event::SplitTrack(TrackId(1), TrackId(2)));
    log.push(Event::JoinTrack(TrackId(2), TrackId(0)));
    log.push(Event::StopTrack(TrackId(1)));
    assert!(log.is_replayable());
}

#[test]
fn starting_an_active_track_is_not_replayable() {
    let mut log = EventLog::with_settings(plain());
    log.push(Event::StartTrack(TrackId(0)));
    assert!(!log.is_replayable());
    let mut log = EventLog::with_settings(plain());
    log.push(Event::StartTracks(vec![TrackId(3), TrackId(3)]));
    assert!(!log.is_replayable());
}

#[test]
fn naming_a_missing_track_is_not_replayable() {
    let mut log = EventLog::with_settings(plain());
    log.push(Event::StopTrack(TrackId(9)));
    assert!(!log.is_replayable());
    let mut log = EventLog::with_settings(plain());
    log.push(Event::JoinTrack(TrackId(0), TrackId(9)));
    assert!(!log.is_replayable());
    let mut log = EventLog::with_settings(plain());
    log.push(Event::SplitTrack(TrackId(9), TrackId(1)));
    assert!(!log.is_replayable());
}

#[test]
fn split_staircase_has_one_shift_per_row() {
    let out = draw(
        vec![Event::StartTrack(TrackId(1)), Event::SplitTrack(TrackId(0), TrackId(2))],
        RenderingSettings::default().splat(0).color(false),
    );
    assert_eq!(out, "│└┐\n├┐│\n");
    let out = draw(
        vec![
            Event::StartTracks(vec![TrackId(1), TrackId(2), TrackId(3)]),
            Event::SplitTrack(TrackId(0), TrackId(4)),
        ],
        RenderingSettings::default().splat(0).color(false),
    );
    assert_eq!(out, "│││└┐\n││└┐│\n│└┐││\n├┐│││\n");
}
