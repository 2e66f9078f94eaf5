use ranwhen::lastlog::{parse_line, parse_lines, span_from_end, LinePatterns, SpanEnd, TimeOverflow};
use ranwhen::span::{merge_spans, sort_spans_by_from, time_overlap, Span};

const JAN_1_2024: i64 = 1704067200;
const HOUR: i64 = 3600;
const JAN_1_2024_MS: i64 = JAN_1_2024 * 1000;
const HOUR_MS: i64 = HOUR * 1000;
const MINUTE_MS: i64 = 60 * 1000;

fn span(from: i64, to: i64) -> Span {
    Span { from, to }
}

#[test]
fn merge_joins_overlapping_spans_only() {
    let spans = vec![span(100, 200), span(150, 300), span(301, 400), span(500, 600)];
    let merged = merge_spans(spans, 0);
    assert_eq!(merged, vec![span(100, 300), span(301, 400), span(500, 600)]);
}

#[test]
fn merge_joins_touching_spans() {
    let merged = merge_spans(vec![span(0, 10), span(10, 20)], 0);
    assert_eq!(merged, vec![span(0, 20)]);
}

#[test]
fn merge_closes_short_gaps() {
    let spans = vec![span(0, 100), span(220, 300), span(421, 500)];
    let merged = merge_spans(spans, 120);
    assert_eq!(merged, vec![span(0, 300), span(421, 500)]);
}

#[test]
fn merge_orders_by_start_first() {
    let spans = vec![span(500, 600), span(0, 100), span(50, 700)];
    let merged = merge_spans(spans, 0);
    assert_eq!(merged, vec![span(0, 700)]);
}

#[test]
fn merge_keeps_a_contained_span_inside() {
    let merged = merge_spans(vec![span(0, 1000), span(10, 20)], 0);
    assert_eq!(merged, vec![span(0, 1000)]);
}

#[test]
fn merge_of_nothing_is_nothing() {
    assert_eq!(merge_spans(Vec::new(), 120), Vec::<Span>::new());
}

#[test]
fn merge_twice_equals_merge_once() {
    let spans = vec![span(0, 100), span(90, 150), span(260, 300), span(1000, 1100)];
    let once = merge_spans(spans, 120);
    let twice = merge_spans(once.clone(), 120);
    assert_eq!(once, twice);
}

#[test]
fn merge_with_negative_gap_only_joins_overlaps() {
    let merged = merge_spans(vec![span(0, 10), span(5, 20), span(21, 30)], -5);
    assert_eq!(merged, vec![span(0, 20), span(21, 30)]);
}

#[test]
fn sort_is_stable_for_equal_starts() {
    let spans = vec![span(5, 9), span(1, 2), span(5, 6), span(3, 4)];
    let sorted = sort_spans_by_from(&spans);
    assert_eq!(sorted, vec![span(1, 2), span(3, 4), span(5, 9), span(5, 6)]);
}

#[test]
fn overlap_of_spans() {
    assert_eq!(time_overlap(&span(0, 100), &span(50, 200)), 50);
    assert_eq!(time_overlap(&span(0, 100), &span(100, 200)), 0);
    assert_eq!(time_overlap(&span(0, 100), &span(200, 300)), 0);
    assert_eq!(time_overlap(&span(10, 20), &span(0, 100)), 10);
}

fn patterns() -> LinePatterns {
    LinePatterns::new().unwrap()
}

#[test]
fn reads_a_closed_boot_record() {
    let line = "reboot   system boot  6.5.9-arch2-1    Mon Jan  1 10:00:00 2024 - Mon Jan  1 12:30:00 2024  (02:30)";
    let now = JAN_1_2024_MS + 100 * HOUR_MS;
    let s = parse_line(line, &patterns(), now).unwrap().unwrap();
    assert_eq!(s, span(JAN_1_2024_MS + 10 * HOUR_MS, JAN_1_2024_MS + 12 * HOUR_MS + 30 * MINUTE_MS));
}

#[test]
fn reads_a_record_without_kernel_version() {
    let line = "reboot   system boot  Mon Jan  1 10:00:00 2024 - Mon Jan  1 12:30:00 2024  (02:30)";
    let s = parse_line(line, &patterns(), JAN_1_2024_MS).unwrap().unwrap();
    assert_eq!(s, span(JAN_1_2024_MS + 10 * HOUR_MS, JAN_1_2024_MS + 12 * HOUR_MS + 30 * MINUTE_MS));
}

#[test]
fn still_running_ends_now() {
    let line = "reboot   system boot  6.5.9-arch2-1    Mon Jan  1 10:00:00 2024   still running";
    let now = JAN_1_2024_MS + 11 * HOUR_MS;
    let s = parse_line(line, &patterns(), now).unwrap().unwrap();
    assert_eq!(s, span(JAN_1_2024_MS + 10 * HOUR_MS, now));
}

#[test]
fn still_running_never_ends_before_the_boot() {
    let line = "reboot   system boot  6.5.9  Mon Jan  1 10:00:00 2024   still running";
    let now = JAN_1_2024_MS;
    let s = parse_line(line, &patterns(), now).unwrap().unwrap();
    assert_eq!(s, span(JAN_1_2024_MS + 10 * HOUR_MS, JAN_1_2024_MS + 10 * HOUR_MS));
}

#[test]
fn a_crash_ends_after_the_uptime() {
    let line = "reboot   system boot  6.5.9  Mon Jan  1 10:00:00 2024 - crash (1+02:03)";
    let s = parse_line(line, &patterns(), JAN_1_2024_MS).unwrap().unwrap();
    assert_eq!(s, span(JAN_1_2024_MS + 10 * HOUR_MS, JAN_1_2024_MS + 10 * HOUR_MS + 26 * HOUR_MS + 3 * MINUTE_MS));
}

#[test]
fn a_negative_uptime_ends_at_the_boot() {
    let line = "reboot   system boot  6.5.9  Mon Jan  1 10:00:00 2024 - crash (-01:03)";
    let s = parse_line(line, &patterns(), JAN_1_2024_MS).unwrap().unwrap();
    assert_eq!(s, span(JAN_1_2024_MS + 10 * HOUR_MS, JAN_1_2024_MS + 10 * HOUR_MS));
}

#[test]
fn other_lines_give_nothing() {
    let p = patterns();
    assert_eq!(parse_line("", &p, JAN_1_2024_MS), Ok(None));
    assert_eq!(parse_line("wtmp begins Mon Jan  1 10:00:00 2024", &p, JAN_1_2024_MS), Ok(None));
    assert_eq!(
        parse_line("daniel   pts/0        Mon Jan  1 10:00:00 2024 - Mon Jan  1 12:30:00 2024  (02:30)", &p, JAN_1_2024_MS),
        Ok(None)
    );
    assert_eq!(parse_line("reboot   system boot  6.5.9  Mon Jan  1 10:00:00 2024 - down", &p, JAN_1_2024_MS), Ok(None));
    assert_eq!(parse_line("reboot   system boot  6.5.9  Mon Foo  1 10:00:00 2024   still running", &p, JAN_1_2024_MS), Ok(None));
}

#[test]
fn an_uptime_beyond_the_calendar_overflows() {
    let line = "reboot   system boot  6.5.9  Mon Jan  1 10:00:00 2024 - crash (99999999999+00:00)";
    assert_eq!(parse_line(line, &patterns(), JAN_1_2024_MS), Err(TimeOverflow));
}

#[test]
fn an_unreadable_day_count_counts_as_none() {
    let line = "reboot   system boot  6.5.9  Mon Jan  1 10:00:00 2024 - crash (99999999999999999999+01:00)";
    let s = parse_line(line, &patterns(), JAN_1_2024_MS).unwrap().unwrap();
    assert_eq!(s, span(JAN_1_2024_MS + 10 * HOUR_MS, JAN_1_2024_MS + 11 * HOUR_MS));
}

#[test]
fn span_ends() {
    let from = JAN_1_2024;
    let from_ms = JAN_1_2024_MS;
    assert_eq!(span_from_end(from, SpanEnd::StillRunning, from_ms + 5), Ok(span(from_ms, from_ms + 5)));
    assert_eq!(span_from_end(from, SpanEnd::StillRunning, from_ms - 5), Ok(span(from_ms, from_ms)));
    assert_eq!(span_from_end(from, SpanEnd::At(from - 5), from_ms), Ok(span(from_ms, from_ms)));
    assert_eq!(span_from_end(from, SpanEnd::At(from + 7), from_ms), Ok(span(from_ms, from_ms + 7000)));
    assert_eq!(
        span_from_end(from, SpanEnd::After { days: 2, hours: 1, minutes: 30 }, from_ms),
        Ok(span(from_ms, from_ms + (2 * 86400 + 3600 + 1800) * 1000))
    );
    assert_eq!(
        span_from_end(from, SpanEnd::After { days: 0, hours: -1, minutes: 30 }, from_ms),
        Ok(span(from_ms, from_ms))
    );
    assert_eq!(
        span_from_end(from, SpanEnd::After { days: i64::MAX, hours: 0, minutes: 0 }, from_ms),
        Err(TimeOverflow)
    );
}

#[test]
fn still_running_ends_at_the_millisecond_of_now() {
    let line = "reboot   system boot  6.5.9  Mon Jan  1 10:00:00 2024   still running";
    let now = JAN_1_2024_MS + 10 * HOUR_MS + 1234;
    let s = parse_line(line, &patterns(), now).unwrap().unwrap();
    assert_eq!(s, span(JAN_1_2024_MS + 10 * HOUR_MS, now));
}

#[test]
fn reads_every_line_in_order() {
    let lines: Vec<String> = vec![
        "reboot   system boot  6.5.9  Mon Jan  1 10:00:00 2024 - Mon Jan  1 12:00:00 2024  (02:00)".to_string(),
        "some other line".to_string(),
        "reboot   system boot  6.5.9  Mon Jan  1 08:00:00 2024 - Mon Jan  1 09:00:00 2024  (01:00)".to_string(),
    ];
    let spans = parse_lines(&lines, &patterns(), JAN_1_2024_MS).unwrap();
    assert_eq!(
        spans,
        vec![
            span(JAN_1_2024_MS + 10 * HOUR_MS, JAN_1_2024_MS + 12 * HOUR_MS),
            span(JAN_1_2024_MS + 8 * HOUR_MS, JAN_1_2024_MS + 9 * HOUR_MS)
        ]
    );
}

#[test]
fn one_overflowing_line_spoils_the_lot() {
    let lines: Vec<String> = vec![
        "reboot   system boot  6.5.9  Mon Jan  1 10:00:00 2024 - Mon Jan  1 12:00:00 2024  (02:00)".to_string(),
        "reboot   system boot  6.5.9  Mon Jan  1 10:00:00 2024 - crash (99999999999+00:00)".to_string(),
    ];
    assert_eq!(parse_lines(&lines, &patterns(), JAN_1_2024_MS), Err(TimeOverflow));
}

#[test]
fn merge_ignores_the_order_of_the_input() {
    let a = vec![span(50, 60), span(0, 10), span(10, 30), span(0, 5), span(100, 200)];
    let b = vec![span(0, 5), span(100, 200), span(0, 10), span(50, 60), span(10, 30)];
    for gap in [-5i64, 0, 19, 20, 40] {
        assert_eq!(merge_spans(a.clone(), gap), merge_spans(b.clone(), gap));
    }
    assert_eq!(merge_spans(a, 20), vec![span(0, 60), span(100, 200)]);
}

#[test]
fn every_span_lies_within_one_merged_span() {
    let input = vec![span(0, 10), span(12, 30), span(5, 8), span(40, 41), span(70, 90)];
    let merged = merge_spans(input.clone(), 5);
    assert_eq!(merged, vec![span(0, 30), span(40, 41), span(70, 90)]);
    for s in &input {
        assert!(merged.iter().any(|m| m.from <= s.from && s.to <= m.to));
    }
}
