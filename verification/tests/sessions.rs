use ranwhen::sessions::{
    activity_spans, combine_sessions, daemon_status_lines, format_ranwhen_lines, history_file_name,
    history_spans, launch_agent_plist, legacy_history_file_name, plist_file_name,
    power_log_sessions, sort_power_events, PowerEvent, PLIST_LABEL,
};
use ranwhen::clock::{MAX_TIMESTAMP, MIN_TIMESTAMP};
use ranwhen::lastlog::TimeOverflow;
use ranwhen::span::Span;

const JAN_1_2024: i64 = 1704067200;
const HOUR: i64 = 3600;

fn lines(v: &[&str]) -> Vec<String> {
    v.iter().map(|s| s.to_string()).collect()
}

fn span(from: i64, to: i64) -> Span {
    Span { from, to }
}

#[test]
fn activity_rows() {
    let l = lines(&[
        "2024-01-01 10:00:00|2024-01-01 11:00:00",
        "2024-01-01 12:00:00|2024-01-01 11:00:00",
        "2024-01-01 12:00:00|2024-01-01 13:00:00|x",
        "garbage",
        "2024-01-01 12:00:00|not a date",
        "2024-01-01 13:00:00|2024-01-01 13:00:00",
    ]);
    let spans = activity_spans(&l);
    assert_eq!(
        spans,
        vec![
            span(JAN_1_2024 + 10 * HOUR, JAN_1_2024 + 11 * HOUR),
            span(JAN_1_2024 + 13 * HOUR, JAN_1_2024 + 13 * HOUR)
        ]
    );
}

#[test]
fn power_log_pairs_wakes_and_sleeps() {
    let l = lines(&[
        "2024-01-01 10:00:00 +0100 Wake                \tWake from Deep Idle [CDNVA] : due to UserActivity Using AC",
        "2024-01-01 10:30:00 +0100 Notification        \tDisplay is turned on",
        "2024-01-01 11:00:00 +0100 Sleep               \tEntering Sleep state due to 'Idle Sleep'",
        "2024-01-01 11:10:00 +0100 Notification        \tDisplay is turned on",
        "2024-01-01 11:10:30 +0100 Notification        \tDisplay is turned off",
        "2024-01-01 12:00:00 +0100 Wake                \tDarkWake from Deep Idle due to smc.sysState.Wake",
        "2024-01-01 12:00:00 +0100 Assertions          \tnothing of note",
    ]);
    let (spans, open) = power_log_sessions(&l, 60).unwrap();
    assert_eq!(spans, vec![span(JAN_1_2024 + 10 * HOUR, JAN_1_2024 + 11 * HOUR)]);
    assert_eq!(open, Some(JAN_1_2024 + 12 * HOUR));
}

#[test]
fn power_log_events_are_taken_in_time_order() {
    let l = lines(&[
        "2024-01-01 11:00:00 +0100 Notification        \tDisplay is turned off",
        "2024-01-01 10:00:00 +0100 Notification        \tDisplay is turned on",
    ]);
    let (spans, open) = power_log_sessions(&l, 60).unwrap();
    assert_eq!(spans, vec![span(JAN_1_2024 + 10 * HOUR, JAN_1_2024 + 11 * HOUR)]);
    assert_eq!(open, None);
}

#[test]
fn wake_without_a_known_reason_is_ignored() {
    let l = lines(&[
        "2024-01-01 10:00:00 +0100 Wake                \tWake from Deep Idle due to RTC",
        "2024-01-01 11:00:00 +0100 Sleep               \tEntering Sleep state due to 'Software Sleep'",
    ]);
    let (spans, open) = power_log_sessions(&l, 60).unwrap();
    assert!(spans.is_empty());
    assert_eq!(open, None);
}

#[test]
fn a_minimum_beyond_any_duration_overflows_when_used() {
    let l = lines(&[
        "2024-01-01 10:00:00 +0100 Notification        \tDisplay is turned on",
        "2024-01-01 11:00:00 +0100 Notification        \tDisplay is turned off",
    ]);
    assert_eq!(power_log_sessions(&l, i64::MAX), Err(TimeOverflow));
    let only_start = lines(&["2024-01-01 10:00:00 +0100 Notification        \tDisplay is turned on"]);
    assert_eq!(power_log_sessions(&only_start, i64::MAX), Ok((Vec::new(), Some(JAN_1_2024 + 10 * HOUR))));
}

#[test]
fn events_sort_stably() {
    let events = vec![
        PowerEvent { at: 5, is_start: false },
        PowerEvent { at: 1, is_start: true },
        PowerEvent { at: 5, is_start: true },
    ];
    let sorted = sort_power_events(&events);
    assert_eq!(
        sorted,
        vec![
            PowerEvent { at: 1, is_start: true },
            PowerEvent { at: 5, is_start: false },
            PowerEvent { at: 5, is_start: true }
        ]
    );
}

#[test]
fn boot_record_lines() {
    let spans = vec![
        span(JAN_1_2024 + 10 * HOUR, JAN_1_2024 + 12 * HOUR + 30 * 60),
        span(JAN_1_2024 + 30 * HOUR, JAN_1_2024 + 56 * HOUR + 5 * 60),
    ];
    let out = format_ranwhen_lines(&spans, Some(JAN_1_2024 + 60 * HOUR));
    assert_eq!(
        out,
        vec![
            "reboot   system boot  Mon Jan  1 10:00:00 2024 - Mon Jan  1 12:30:00 2024  (02:30)".to_string(),
            "reboot   system boot  Tue Jan  2 06:00:00 2024 - Wed Jan  3 08:05:00 2024  (1+02:05)".to_string(),
            "reboot   system boot  Wed Jan  3 12:00:00 2024   still running".to_string(),
        ]
    );
}

#[test]
fn boot_record_of_a_span_ending_before_it_starts() {
    let out = format_ranwhen_lines(&vec![span(JAN_1_2024 + 3 * HOUR, JAN_1_2024 + HOUR + 60)], None);
    assert_eq!(
        out,
        vec!["reboot   system boot  Mon Jan  1 03:00:00 2024 - Mon Jan  1 01:01:00 2024  (-1:-59)".to_string()]
    );
}

#[test]
fn written_records_read_back() {
    let spans = vec![
        span(JAN_1_2024 + 10 * HOUR, JAN_1_2024 + 12 * HOUR + 30 * 60),
        span(JAN_1_2024 + 30 * HOUR, JAN_1_2024 + 56 * HOUR + 5 * 60 + 7),
    ];
    let written = format_ranwhen_lines(&spans, None);
    assert_eq!(history_spans(&written), spans);
}

#[test]
fn history_lines_without_an_end_are_skipped() {
    let l = lines(&[
        "reboot   system boot  Mon Jan  1 10:00:00 2024   still running",
        "reboot   system boot  Jan  1 10:00:00 2024 - Jan  1 11:00:00 2024  (01:00)",
        "reboot   system boot  Mon Jan  1 10:00:00 2024 - Mon Jan  1 09:00:00 2024",
    ]);
    assert_eq!(history_spans(&l), vec![span(JAN_1_2024 + 10 * HOUR, JAN_1_2024 + 11 * HOUR)]);
}

#[test]
fn combining_sessions() {
    let stored = vec![span(0, 100)];
    let activity = vec![span(150, 200), span(1000, 2000)];
    let power = vec![span(1900, 2500)];
    let (merged, live) = combine_sessions(stored, activity, power, Some(2600));
    assert_eq!(merged, vec![span(0, 200), span(1000, 2500)]);
    assert_eq!(live, Some(2600));
    let (_, live) = combine_sessions(vec![span(0, 100)], Vec::new(), Vec::new(), Some(50));
    assert_eq!(live, None);
    let (merged, live) = combine_sessions(Vec::new(), Vec::new(), Vec::new(), Some(50));
    assert!(merged.is_empty());
    assert_eq!(live, Some(50));
}

#[test]
fn history_names() {
    assert_eq!(history_file_name(None), "activity_sessions.log");
    assert_eq!(history_file_name(Some("mac")), "activity_sessions_mac.log");
    assert_eq!(legacy_history_file_name(None), "history.txt");
    assert_eq!(legacy_history_file_name(Some("mac")), "history_mac.txt");
    assert_eq!(plist_file_name(), "com.gustawdaniel.ranwhen-collector.plist");
}

#[test]
fn launch_agent_description() {
    let p = launch_agent_plist("/usr/local/bin/ranwhen");
    assert!(p.starts_with("<?xml version=\"1.0\" encoding=\"UTF-8\"?>\n"));
    assert!(p.contains(&format!("<key>Label</key>\n    <string>{}</string>", PLIST_LABEL)));
    assert!(p.contains("<string>/usr/local/bin/ranwhen</string>\n        <string>--collect</string>"));
    assert!(p.contains("<integer>1800</integer>"));
    assert!(p.ends_with("</dict>\n</plist>\n"));
}

#[test]
fn daemon_status() {
    let listing = lines(&["PID\tStatus\tLabel", "123\t0\tcom.gustawdaniel.ranwhen-collector", "-\t0\tother"]);
    assert_eq!(
        daemon_status_lines(&listing, "mac"),
        vec![
            "Daemon 'com.gustawdaniel.ranwhen-collector' is ACTIVE on mac:".to_string(),
            "  123\t0\tcom.gustawdaniel.ranwhen-collector".to_string()
        ]
    );
    assert_eq!(
        daemon_status_lines(&lines(&["-\t0\tother"]), "localhost"),
        vec!["Daemon 'com.gustawdaniel.ranwhen-collector' is NOT currently loaded on localhost.".to_string()]
    );
}

#[test]
fn sessions_two_minutes_apart_stay_separate() {
    let (merged, _) = combine_sessions(vec![span(0, 100)], vec![span(220, 300)], Vec::new(), None);
    assert_eq!(merged, vec![span(0, 100), span(220, 300)]);
    let (merged, _) = combine_sessions(vec![span(0, 100)], vec![span(219, 300)], Vec::new(), None);
    assert_eq!(merged, vec![span(0, 300)]);
}

#[test]
fn calendar_edges_can_be_written() {
    let lines = format_ranwhen_lines(&vec![span(MIN_TIMESTAMP, MIN_TIMESTAMP + 60)], Some(MAX_TIMESTAMP));
    assert_eq!(lines.len(), 2);
    assert!(lines[0].contains("Jan  1 00:00:00 -262143"), "{}", lines[0]);
    assert!(lines[1].contains("Dec 31 23:59:59 +262142"), "{}", lines[1]);
}
