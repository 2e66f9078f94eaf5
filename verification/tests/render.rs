use ranwhen::render::{format_delta, format_delta_short, format_heading, get_delta_fields, Styler};
use ranwhen::report::{render_report, spans_for_report, ReportError};
use ranwhen::slots::compute_slots;
use ranwhen::span::Span;

const JAN_1_2024: i64 = 1704067200;
const HOUR: i64 = 3600;

/// Seconds as milliseconds.
fn ms(seconds: i64) -> i64 {
    seconds * 1000
}

fn plain() -> Styler {
    Styler::new(false)
}

#[test]
fn delta_fields() {
    let f = get_delta_fields(3 * 3600 + 5 * 60 + 59);
    assert_eq!((f.hours, f.minutes), (3, 5));
    let f = get_delta_fields(-100);
    assert_eq!((f.hours, f.minutes), (0, 0));
    let f = get_delta_fields(1000 * 3600);
    assert_eq!((f.hours, f.minutes), (1000, 0));
}

#[test]
fn delta_texts() {
    assert_eq!(format_delta(&plain(), 3 * 3600 + 5 * 60), "   3 hours  5 minutes");
    assert_eq!(format_delta(&plain(), 12345 * 3600 + 59 * 60), "12345 hours 59 minutes");
    assert_eq!(format_delta(&plain(), -5), "   0 hours  0 minutes");
}

#[test]
fn short_delta_texts() {
    assert_eq!(format_delta_short(&plain(), 0), "");
    assert_eq!(format_delta_short(&plain(), 59), "");
    assert_eq!(format_delta_short(&plain(), 300), "  :05");
    assert_eq!(format_delta_short(&plain(), 3 * 3600 + 5 * 60), " 3:05");
    assert_eq!(format_delta_short(&plain(), 24 * 3600), "24:00");
}

#[test]
fn escape_sequences() {
    let st = Styler::new(true);
    assert_eq!(st.get_reset_sequence(), "\x1b[0m");
    assert_eq!(st.get_escape_sequence(Some(231), Some(238), true), "\x1b[0m\x1b[38;5;231;48;5;238;1m");
    assert_eq!(st.get_escape_sequence(None, None, false), "\x1b[0m\x1b[m");
    assert_eq!(st.style("x", Some(5), None, false), "\x1b[0m\x1b[38;5;5mx\x1b[0m\x1b[38;5;251m");
    assert_eq!(plain().get_reset_sequence(), "");
    assert_eq!(plain().get_escape_sequence(Some(1), None, true), "");
    assert_eq!(plain().style("x", Some(5), None, false), "x");
}

#[test]
fn heading_is_centred() {
    let h = format_heading(&plain(), "January 2024");
    let expected = format!("┌{} January 2024 {}┐", "─".repeat(23), "─".repeat(24));
    assert_eq!(h, expected);
    assert_eq!(h.chars().count(), 63);
}

#[test]
fn a_long_heading_gets_no_rule() {
    let name = "x".repeat(70);
    let h = format_heading(&plain(), &name);
    assert_eq!(h, format!("┌ {} ┐", name));
}

#[test]
fn slots_of_one_span() {
    let spans = vec![Span { from: ms(JAN_1_2024 + 10 * HOUR + 900), to: ms(JAN_1_2024 + 11 * HOUR) }];
    let t = compute_slots(&spans);
    assert_eq!(t.first_day, ms(JAN_1_2024));
    assert_eq!(t.days, 1);
    assert_eq!(t.slot_ms.len(), 48);
    assert_eq!(t.slot_ms[20], ms(900));
    assert_eq!(t.slot_ms[21], ms(1800));
    assert_eq!(t.slot_ms.iter().sum::<i64>(), ms(2700));
    assert_eq!(t.total, ms(2700));
    assert_eq!(t.by_time_of_day[20], ms(900));
    assert_eq!(t.by_time_of_day[21], ms(1800));
}

#[test]
fn slots_across_midnight() {
    let spans = vec![
        Span { from: ms(JAN_1_2024 + 23 * HOUR), to: ms(JAN_1_2024 + 25 * HOUR) },
        Span { from: ms(JAN_1_2024 + 47 * HOUR + 1800), to: ms(JAN_1_2024 + 47 * HOUR + 1800 + 60) },
    ];
    let t = compute_slots(&spans);
    assert_eq!(t.days, 2);
    assert_eq!(t.slot_ms.len(), 96);
    assert_eq!(t.slot_ms[46], ms(1800));
    assert_eq!(t.slot_ms[47], ms(1800));
    assert_eq!(t.slot_ms[48], ms(1800));
    assert_eq!(t.slot_ms[49], ms(1800));
    assert_eq!(t.slot_ms[95], ms(60));
    assert_eq!(t.by_time_of_day[47], ms(1860));
    assert_eq!(t.by_time_of_day[0], ms(1800));
    assert_eq!(t.total, ms(4 * 1800 + 60));
}

#[test]
fn total_equals_the_length_of_the_spans() {
    let spans = vec![
        Span { from: ms(JAN_1_2024 + 1), to: ms(JAN_1_2024 + 7777) },
        Span { from: ms(JAN_1_2024 + 9000), to: ms(JAN_1_2024 + 3 * 86400 + 5) },
    ];
    let t = compute_slots(&spans);
    assert_eq!(t.total, ms(7776 + 3 * 86400 + 5 - 9000));
}

fn lines(v: &[&str]) -> Vec<String> {
    v.iter().map(|s| s.to_string()).collect()
}

#[test]
fn report_spans_are_merged() {
    let l = lines(&[
        "reboot   system boot  6.5.9  Mon Jan  1 10:00:00 2024 - Mon Jan  1 12:00:00 2024  (02:00)",
        "reboot   system boot  6.5.9  Mon Jan  1 11:00:00 2024 - Mon Jan  1 13:00:00 2024  (02:00)",
    ]);
    let spans = spans_for_report(&l, ms(JAN_1_2024)).unwrap();
    assert_eq!(spans, vec![Span { from: ms(JAN_1_2024 + 10 * HOUR), to: ms(JAN_1_2024 + 13 * HOUR) }]);
}

#[test]
fn no_records_no_report() {
    let l = lines(&["nothing here"]);
    assert_eq!(spans_for_report(&l, ms(JAN_1_2024)), Err(ReportError::NoRecords));
}

#[test]
fn report_text() {
    let l = lines(&[
        "reboot   system boot  6.5.9  Mon Jan  1 10:00:00 2024 - Mon Jan  1 12:15:00 2024  (02:15)",
    ]);
    let spans = spans_for_report(&l, ms(JAN_1_2024)).unwrap();
    let t = compute_slots(&spans);
    let heights = vec![0i64; 48];
    let report = render_report(&plain(), &t, &heights);
    let expected_day = format!(
        "Mon  1  {}{}{}{}   2:15\n",
        " ".repeat(20),
        "▇▇▇▇",
        "▄",
        " ".repeat(23)
    );
    assert!(report.contains(&expected_day), "{}", report);
    assert!(report.contains("Period:  January 01 2024 – January 01 2024 (1 days)\n"));
    assert!(report.contains(&format!("{}{}\n", "Total time running: ", "   2 hours 15 minutes")));
    assert!(report.contains(&format!("{}{}\n", "Daily average:      ", "   2 hours 15 minutes")));
    assert!(report.contains(" January 2024 "));
    assert!(report.contains("       0:00 ☾      6:00 ☀     12:00 ☀     18:00 ☀     24:00 ☽\n"));
    assert!(report.starts_with("\n\n┌"));
    assert!(report.ends_with("        ▀           ▀           ▀           ▀           ▀\n\n"));
}

#[test]
fn histogram_lines_follow_heights() {
    let l = lines(&[
        "reboot   system boot  6.5.9  Mon Jan  1 10:00:00 2024 - Mon Jan  1 12:15:00 2024  (02:15)",
    ]);
    let spans = spans_for_report(&l, ms(JAN_1_2024)).unwrap();
    let t = compute_slots(&spans);
    let mut heights = vec![0i64; 48];
    heights[0] = 32;
    heights[1] = 12;
    let report = render_report(&plain(), &t, &heights);
    assert!(report.contains(&format!("   max  ▆{}▆", " ".repeat(11))));
    assert!(report.contains(&format!("        █ {} \n", " ".repeat(46))));
    assert!(report.contains(&format!("        █▄{} \n", " ".repeat(46))));
    assert!(report.contains(&format!("   min  ██{} \n", " ".repeat(46))));
}

#[test]
fn months_get_their_own_heading() {
    let l = lines(&[
        "reboot   system boot  6.5.9  Wed Jan 31 23:00:00 2024 - Thu Feb  1 01:00:00 2024  (02:00)",
    ]);
    let spans = spans_for_report(&l, ms(JAN_1_2024)).unwrap();
    let t = compute_slots(&spans);
    assert_eq!(t.days, 2);
    let report = render_report(&plain(), &t, &vec![0i64; 48]);
    assert!(report.contains(" January 2024 "));
    assert!(report.contains(" February 2024 "));
    assert!(report.contains("Wed 31  "));
    assert!(report.contains("Thu  1  "));
    assert!(report.contains("Period:  January 31 2024 – February 01 2024 (2 days)\n"));
    assert!(report.contains(&format!("{}{}\n", "Daily average:      ", "   1 hours  0 minutes")));
}

#[test]
fn weekend_days_stand_out() {
    let l = lines(&[
        "reboot   system boot  6.5.9  Sat Jan  6 10:00:00 2024 - Mon Jan  8 12:00:00 2024  (2+02:00)",
    ]);
    let spans = spans_for_report(&l, ms(JAN_1_2024)).unwrap();
    let t = compute_slots(&spans);
    assert_eq!(t.days, 3);
    let report = render_report(&Styler::new(true), &t, &vec![0i64; 48]);
    assert!(report.contains("\x1b[0m\x1b[38;5;231mSat  6\x1b[0m\x1b[38;5;251m"), "{}", report);
    assert!(report.contains("\x1b[0m\x1b[38;5;231;1mSun  7\x1b[0m\x1b[38;5;251m"));
    assert!(report.contains("\x1b[0m\x1b[38;5;245mMon  8\x1b[0m\x1b[38;5;251m"));
}

#[test]
fn half_hours_of_the_day_add_up_to_the_total() {
    let spans = vec![
        Span { from: ms(JAN_1_2024 + 100), to: ms(JAN_1_2024 + 5000) },
        Span { from: ms(JAN_1_2024 + 80000), to: ms(JAN_1_2024 + 2 * 86400 + 4000) },
    ];
    let t = compute_slots(&spans);
    assert_eq!(t.by_time_of_day.len(), 48);
    assert_eq!(t.by_time_of_day.iter().sum::<i64>(), t.total);
    assert_eq!(t.total, ms(4900 + 2 * 86400 + 4000 - 80000));
    assert_eq!(t.by_time_of_day[0], ms(1700 + 1800 + 1800));
}

fn without_escapes(s: &str) -> String {
    let mut out = String::new();
    let mut inside = false;
    for c in s.chars() {
        if inside {
            inside = c != 'm';
        } else if c == '\x1b' {
            inside = true;
        } else {
            out.push(c);
        }
    }
    out
}

#[test]
fn styling_strips_back_to_the_text() {
    let st = Styler::new(true);
    let styled = st.style("Mon  8", Some(245), Some(238), true);
    assert_eq!(styled, "\x1b[0m\x1b[38;5;245;48;5;238;1mMon  8\x1b[0m\x1b[38;5;251m");
    assert_eq!(without_escapes(&styled), "Mon  8");
    assert_eq!(plain().style("Mon  8", Some(245), Some(238), true), "Mon  8");
    assert_eq!(without_escapes(&format_delta(&st, 3700)), format_delta(&plain(), 3700));
}

#[test]
fn the_current_half_hour_counts_to_the_millisecond() {
    let l = lines(&["reboot   system boot  6.5.9  Mon Jan  1 10:00:00 2024   still running"]);
    let now = ms(JAN_1_2024 + 10 * HOUR) + 128572;
    let spans = spans_for_report(&l, now).unwrap();
    let t = compute_slots(&spans);
    assert_eq!(t.slot_ms[20], 128572);
    assert_eq!(t.total, 128572);
    let report = render_report(&plain(), &t, &vec![0i64; 48]);
    let expected_day = format!("Mon  1  {}▁{}    :02\n", " ".repeat(20), " ".repeat(27));
    assert!(report.contains(&expected_day), "{}", report);
    assert!(report.contains("Total time running:    0 hours  2 minutes\n"));
}
