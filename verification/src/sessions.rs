//! Activity sessions: reading them from the records of the display and power logs and from
//! the stored history, combining them, and writing them back as boot records.
use vstd::prelude::*;
use crate::clock::{date_text, in_calendar, or_empty, parse_timestamp, parsed_timestamp, push_date};
use crate::lastlog::{delta_fits, lines_text, TimeOverflow, DELTA_LIMIT};
use crate::pattern::{group, group_at, regex_captures, regex_compiles, Pattern};
use crate::span::{
    all_proper, all_wf, gaps_exceed, held_by, is_chain, merge_spans, merged_spans, Span,
};
use crate::text::{
    chars_of, has_substring, int_text, push_int, push_int_zero_padded, seq_contains, str_contains,
    zero_padded,
};

verus! {

broadcast use vstd::string::group_string_axioms;

/// How the display activity records write their dates: `2024-01-05 10:00:00`.
pub const ACTIVITY_DATE_FORMAT: &'static str = "%Y-%m-%d %H:%M:%S";

/// A power-log record: date, time zone, category, then the message.
pub const POWER_LOG_PATTERN: &'static str = r"^(\d{4}-\d{2}-\d{2} \d{2}:\d{2}:\d{2}) [+-]\d{4}\s+(\S+)\s*(.*)";

/// A stored boot record, with its end when it has one.
pub const HISTORY_LINE_PATTERN: &'static str = r"^reboot\s+system\s+boot\s+(?:(?:Mon|Tue|Wed|Thu|Fri|Sat|Sun)\s+)?([A-Za-z]{3}\s+[\s\d]\d\s+\d{2}:\d{2}:\d{2}\s+\d{4})(?:\s+-\s+(?:(?:Mon|Tue|Wed|Thu|Fri|Sat|Sun)\s+)?([A-Za-z]{3}\s+[\s\d]\d\s+\d{2}:\d{2}:\d{2}\s+\d{4}))?";

/// How stored boot records write their dates: `Fri Jan  5 10:00:00 2024`.
pub const SESSION_DATE_FORMAT: &'static str = "%a %b %e %H:%M:%S %Y";

/// Pauses shorter than this many seconds between two sessions are merged away.
pub const SESSION_GAP_SECONDS: i64 = 120;

// ---------------------------------------------------------------------------
// Display activity records: `start|end`
// ---------------------------------------------------------------------------

/// The only `|` of `line` stands at `p`.
pub open spec fn sole_pipe_at(line: Seq<char>, p: int) -> bool {
    &&& 0 <= p < line.len()
    &&& line[p] == '|'
    &&& forall|q: int| 0 <= q < line.len() && q != p ==> line[q] != '|'
}

/// The two fields of a line holding exactly one `|`.
pub open spec fn pipe_fields(line: Seq<char>) -> Option<(Seq<char>, Seq<char>)> {
    if exists|p: int| sole_pipe_at(line, p) {
        let p = choose|p: int| sole_pipe_at(line, p);
        Some((line.take(p), line.skip(p + 1)))
    } else {
        None
    }
}

/// The span of a display activity record, when both dates read and the end is not earlier.
pub open spec fn activity_row_span(line: Seq<char>) -> Option<Span> {
    match pipe_fields(line) {
        None => None,
        Some((a, b)) => match parsed_timestamp(a, ACTIVITY_DATE_FORMAT@) {
            None => None,
            Some(s) => match parsed_timestamp(b, ACTIVITY_DATE_FORMAT@) {
                None => None,
                Some(e) => if e >= s {
                    Some(Span { from: s, to: e })
                } else {
                    None
                },
            },
        },
    }
}

/// The spans that `read` gives for `lines`, in order, skipping the lines it gives none for.
pub open spec fn spans_of_lines(lines: Seq<Seq<char>>, read: spec_fn(Seq<char>) -> Option<Span>) -> Seq<Span>
    decreases lines.len(),
{
    if lines.len() == 0 {
        seq![]
    } else {
        let prev = spans_of_lines(lines.drop_last(), read);
        match read(lines.last()) {
            Some(s) => prev.push(s),
            None => prev,
        }
    }
}

/// Where the only `|` of a line stands, if it has exactly one.
fn sole_pipe(line: &Vec<char>) -> (p: Option<usize>)
    ensures
        match p {
            Some(p) => sole_pipe_at(line@, p as int),
            None => !exists|q: int| sole_pipe_at(line@, q),
        },
{
    let n = line.len();
    let mut found: Option<usize> = None;
    let mut i: usize = 0;
    while i < n
        invariant
            n == line@.len(),
            i <= n,
            match found {
                Some(p) => p < i && line@[p as int] == '|' && forall|q: int|
                    0 <= q < i && q != p ==> line@[q] != '|',
                None => forall|q: int| 0 <= q < i ==> line@[q] != '|',
            },
        decreases n - i,
    {
        if line[i] == '|' {
            match found {
                Some(p) => {
                    assert forall|q: int| #![auto] !sole_pipe_at(line@, q) by {
                        if sole_pipe_at(line@, q) {
                            if q == p as int {
                                assert(line@[i as int] == '|');
                            } else {
                                assert(line@[p as int] == '|');
                            }
                        }
                    }
                    return None;
                },
                None => {
                    found = Some(i);
                },
            }
        }
        i = i + 1;
    }
    match found {
        Some(p) => Some(p),
        None => {
            assert forall|q: int| #![auto] !sole_pipe_at(line@, q) by {
                if sole_pipe_at(line@, q) {
                    assert(line@[q] == '|');
                }
            }
            None
        },
    }
}

/// Reads one display activity record.
fn read_activity_row(line: &str) -> (span: Option<Span>)
    ensures
        span == activity_row_span(line@),
        span matches Some(s) ==> s.wf() && s.is_proper(),
{
    let chars = chars_of(line);
    let p = match sole_pipe(&chars) {
        Some(p) => p,
        None => return None,
    };
    proof {
        assert(sole_pipe_at(line@, p as int));
        let q = choose|q: int| sole_pipe_at(line@, q);
        assert(q == p);
    }
    assert(p < chars.len());
    let first = line.substring_char(0, p);
    let second = line.substring_char(p + 1, chars.len());
    assert(first@ =~= line@.take(p as int));
    assert(second@ =~= line@.skip(p + 1));
    let s = match parse_timestamp(first, ACTIVITY_DATE_FORMAT) {
        Some(s) => s,
        None => return None,
    };
    let e = match parse_timestamp(second, ACTIVITY_DATE_FORMAT) {
        Some(e) => e,
        None => return None,
    };
    if e >= s {
        Some(Span { from: s, to: e })
    } else {
        None
    }
}

/// Reads display activity records, one `start|end` per line, into spans, in order.
pub fn activity_spans(lines: &Vec<String>) -> (spans: Vec<Span>)
    ensures
        spans@ == spans_of_lines(lines_text(lines@), |l: Seq<char>| activity_row_span(l)),
        all_wf(spans@),
        all_proper(spans@),
{
    let ghost read = |l: Seq<char>| activity_row_span(l);
    let mut spans: Vec<Span> = Vec::new();
    let n = lines.len();
    let mut i: usize = 0;
    while i < n
        invariant
            n == lines.len(),
            i <= n,
            read == (|l: Seq<char>| activity_row_span(l)),
            spans@ == spans_of_lines(lines_text(lines@).take(i as int), read),
            all_wf(spans@),
            all_proper(spans@),
        decreases n - i,
    {
        proof {
            let t = lines_text(lines@);
            assert(t.take(i + 1).drop_last() =~= t.take(i as int));
            assert(t.take(i + 1).last() == lines@[i as int]@);
        }
        match read_activity_row(lines[i].as_str()) {
            Some(s) => spans.push(s),
            None => {},
        }
        i = i + 1;
    }
    assert(lines_text(lines@).take(n as int) =~= lines_text(lines@));
    spans
}

// ---------------------------------------------------------------------------
// Stored boot records
// ---------------------------------------------------------------------------

/// The span of a stored boot record that has an end not earlier than its start.
pub open spec fn history_line_span(line: Seq<char>) -> Option<Span> {
    match regex_captures(HISTORY_LINE_PATTERN@, line) {
        None => None,
        Some(g) => match parsed_timestamp(or_empty(group_at(g, 1)), crate::lastlog::RECORD_DATE_FORMAT@) {
            None => None,
            Some(s) => match group_at(g, 2) {
                None => None,
                Some(e_text) => match parsed_timestamp(e_text, crate::lastlog::RECORD_DATE_FORMAT@) {
                    Some(e) => if e >= s {
                        Some(Span { from: s, to: e })
                    } else {
                        None
                    },
                    None => None,
                },
            },
        },
    }
}

/// What `history_spans` returns for `lines`.
pub open spec fn history_spans_of(lines: Seq<Seq<char>>) -> Seq<Span> {
    if regex_compiles(HISTORY_LINE_PATTERN@) {
        spans_of_lines(lines, |l: Seq<char>| history_line_span(l))
    } else {
        seq![]
    }
}

fn read_history_line(line: &str, pattern: &Pattern) -> (span: Option<Span>)
    requires
        pattern.source() == HISTORY_LINE_PATTERN@,
    ensures
        span == history_line_span(line@),
        span matches Some(s) ==> s.wf() && s.is_proper(),
{
    let g = match pattern.captures(line) {
        Some(g) => g,
        None => return None,
    };
    let empty = String::new();
    let s_text: &String = match group(&g, 1) {
        Some(t) => t,
        None => &empty,
    };
    let s = match parse_timestamp(s_text.as_str(), crate::lastlog::RECORD_DATE_FORMAT) {
        Some(s) => s,
        None => return None,
    };
    match group(&g, 2) {
        None => None,
        Some(e_text) => match parse_timestamp(e_text.as_str(), crate::lastlog::RECORD_DATE_FORMAT) {
            Some(e) => if e >= s {
                Some(Span { from: s, to: e })
            } else {
                None
            },
            None => None,
        },
    }
}

/// Reads stored boot records into spans, in order; records without an end, or ending before
/// they start, are skipped.
pub fn history_spans(lines: &Vec<String>) -> (spans: Vec<Span>)
    ensures
        spans@ == history_spans_of(lines_text(lines@)),
        all_wf(spans@),
        all_proper(spans@),
{
    let pattern = match Pattern::compile(HISTORY_LINE_PATTERN) {
        Some(p) => p,
        None => return Vec::new(),
    };
    let ghost read = |l: Seq<char>| history_line_span(l);
    let mut spans: Vec<Span> = Vec::new();
    let n = lines.len();
    let mut i: usize = 0;
    while i < n
        invariant
            n == lines.len(),
            i <= n,
            pattern.source() == HISTORY_LINE_PATTERN@,
            read == (|l: Seq<char>| history_line_span(l)),
            spans@ == spans_of_lines(lines_text(lines@).take(i as int), read),
            all_wf(spans@),
            all_proper(spans@),
        decreases n - i,
    {
        proof {
            let t = lines_text(lines@);
            assert(t.take(i + 1).drop_last() =~= t.take(i as int));
            assert(t.take(i + 1).last() == lines@[i as int]@);
        }
        match read_history_line(lines[i].as_str(), &pattern) {
            Some(s) => spans.push(s),
            None => {},
        }
        i = i + 1;
    }
    assert(lines_text(lines@).take(n as int) =~= lines_text(lines@));
    spans
}


// ---------------------------------------------------------------------------
// Power-log records
// ---------------------------------------------------------------------------

/// A moment when the machine became active (`is_start`) or inactive.
#[derive(Clone, Copy, Debug, PartialEq, Eq, Structural)]
pub struct PowerEvent {
    pub at: i64,
    pub is_start: bool,
}

/// A power-log message that says the machine became active.
pub open spec fn marks_activity(category: Seq<char>, rest: Seq<char>) -> bool {
    ||| has_substring(rest, "Display is turned on"@)
    ||| category == "Wake"@ && (has_substring(rest, "due to UserActivity"@) || has_substring(
        rest,
        "due to smc.sysState.Wake"@,
    ) || has_substring(rest, "due to acattach"@) || has_substring(rest, "HID Activity"@))
}

/// A power-log message that says the machine became inactive.
pub open spec fn marks_inactivity(category: Seq<char>, rest: Seq<char>) -> bool {
    ||| has_substring(rest, "Display is turned off"@)
    ||| category == "Sleep"@ && (has_substring(rest, "Clamshell Sleep"@) || has_substring(
        rest,
        "Idle Sleep"@,
    ) || has_substring(rest, "Software Sleep"@))
}

/// The event that a power-log line records, if any; activity is looked for first.
pub open spec fn power_event(line: Seq<char>) -> Option<PowerEvent> {
    match regex_captures(POWER_LOG_PATTERN@, line) {
        None => None,
        Some(g) => match parsed_timestamp(or_empty(group_at(g, 1)), ACTIVITY_DATE_FORMAT@) {
            None => None,
            Some(at) => {
                let category = or_empty(group_at(g, 2));
                let rest = or_empty(group_at(g, 3));
                if marks_activity(category, rest) {
                    Some(PowerEvent { at, is_start: true })
                } else if marks_inactivity(category, rest) {
                    Some(PowerEvent { at, is_start: false })
                } else {
                    None
                }
            },
        },
    }
}

/// The events recorded by `lines`, in order.
pub open spec fn power_events(lines: Seq<Seq<char>>) -> Seq<PowerEvent>
    decreases lines.len(),
{
    if lines.len() == 0 {
        seq![]
    } else {
        let prev = power_events(lines.drop_last());
        match power_event(lines.last()) {
            Some(e) => prev.push(e),
            None => prev,
        }
    }
}

/// `x` placed after every event of `sorted` that is not later than it.
pub open spec fn insert_event(sorted: Seq<PowerEvent>, x: PowerEvent) -> Seq<PowerEvent>
    decreases sorted.len(),
{
    if sorted.len() == 0 || sorted.last().at <= x.at {
        sorted.push(x)
    } else {
        insert_event(sorted.drop_last(), x).push(sorted.last())
    }
}

/// `s` ordered by time; events at the same time keep their order.
pub open spec fn sort_events(s: Seq<PowerEvent>) -> Seq<PowerEvent>
    decreases s.len(),
{
    if s.len() == 0 {
        s
    } else {
        insert_event(sort_events(s.drop_last()), s.last())
    }
}

/// Times never decrease along `s`.
pub open spec fn events_sorted(s: Seq<PowerEvent>) -> bool {
    forall|i: int, j: int| 0 <= i <= j < s.len() ==> s[i].at <= s[j].at
}

proof fn lemma_insert_event_position(sorted: Seq<PowerEvent>, x: PowerEvent, j: int)
    requires
        0 <= j <= sorted.len(),
        forall|k: int| j <= k < sorted.len() ==> sorted[k].at > x.at,
        j == 0 || sorted[j - 1].at <= x.at,
    ensures
        insert_event(sorted, x) == sorted.insert(j, x),
    decreases sorted.len(),
{
    if sorted.len() == 0 {
        assert(sorted.insert(j, x) =~= seq![x]);
    } else if sorted.last().at <= x.at {
        assert(sorted.insert(j, x) =~= sorted.push(x));
    } else {
        lemma_insert_event_position(sorted.drop_last(), x, j);
        assert(sorted.drop_last().insert(j, x).push(sorted.last()) =~= sorted.insert(j, x));
    }
}

proof fn lemma_insert_event_sorted(sorted: Seq<PowerEvent>, x: PowerEvent)
    requires
        events_sorted(sorted),
    ensures
        events_sorted(insert_event(sorted, x)),
        insert_event(sorted, x).len() == sorted.len() + 1,
        forall|i: int| 0 <= i < insert_event(sorted, x).len() ==> #[trigger] insert_event(
            sorted,
            x,
        )[i].at <= (if sorted.len() > 0 && sorted.last().at > x.at {
            sorted.last().at
        } else {
            x.at
        }),
    decreases sorted.len(),
{
    if sorted.len() == 0 || sorted.last().at <= x.at {
    } else {
        lemma_insert_event_sorted(sorted.drop_last(), x);
    }
}

proof fn lemma_insert_event_multiset(sorted: Seq<PowerEvent>, x: PowerEvent)
    ensures
        insert_event(sorted, x).to_multiset() =~= sorted.to_multiset().insert(x),
    decreases sorted.len(),
{
    broadcast use vstd::seq_lib::to_multiset_build;

    if !(sorted.len() == 0 || sorted.last().at <= x.at) {
        let rest = sorted.drop_last();
        lemma_insert_event_multiset(rest, x);
        assert(sorted =~= rest.push(sorted.last()));
    }
}

/// Law: `sort_events` returns the same events, ordered by time.
pub proof fn lemma_sort_events(s: Seq<PowerEvent>)
    ensures
        events_sorted(sort_events(s)),
        sort_events(s).len() == s.len(),
        sort_events(s).to_multiset() =~= s.to_multiset(),
    decreases s.len(),
{
    broadcast use vstd::seq_lib::to_multiset_build;

    if s.len() > 0 {
        lemma_sort_events(s.drop_last());
        lemma_insert_event_sorted(sort_events(s.drop_last()), s.last());
        lemma_insert_event_multiset(sort_events(s.drop_last()), s.last());
        assert(s =~= s.drop_last().push(s.last()));
    }
}

/// Returns `events` ordered by time; events at the same time keep their order.
pub fn sort_power_events(events: &Vec<PowerEvent>) -> (sorted: Vec<PowerEvent>)
    ensures
        sorted@ == sort_events(events@),
{
    let mut sorted: Vec<PowerEvent> = Vec::new();
    let n = events.len();
    let mut i: usize = 0;
    while i < n
        invariant
            n == events.len(),
            i <= n,
            sorted@ == sort_events(events@.take(i as int)),
        decreases n - i,
    {
        let x = events[i];
        let mut j: usize = sorted.len();
        while j > 0 && sorted[j - 1].at > x.at
            invariant
                j <= sorted.len(),
                forall|k: int| j <= k < sorted.len() ==> sorted@[k].at > x.at,
            decreases j,
        {
            j = j - 1;
        }
        proof {
            lemma_insert_event_position(sorted@, x, j as int);
            assert(events@.take(i + 1).drop_last() =~= events@.take(i as int));
        }
        sorted.insert(j, x);
        i = i + 1;
    }
    assert(events@.take(n as int) =~= events@);
    sorted
}

/// Sessions so far and the start of the session still open, after taking in event `e`: an
/// activity opens a session unless one is open; an inactivity closes the open one, keeping it
/// when it lasted at least `min` seconds.
pub open spec fn pair_step(
    done: Seq<Span>,
    open: Option<i64>,
    e: PowerEvent,
    min: int,
) -> Result<(Seq<Span>, Option<i64>), TimeOverflow> {
    if e.is_start {
        Ok((done, if open is None { Some(e.at) } else { open }))
    } else {
        match open {
            None => Ok((done, None)),
            Some(st) => if !delta_fits(min) {
                Err(TimeOverflow)
            } else if e.at - st >= min {
                Ok((done.push(Span { from: st, to: e.at }), None))
            } else {
                Ok((done, None))
            },
        }
    }
}

/// The sessions that the events `evs`, taken in order, give, and the start of the session left
/// open; `TimeOverflow` when a session is closed while `min` is beyond what a duration holds.
pub open spec fn pair_events(evs: Seq<PowerEvent>, min: int) -> Result<(Seq<Span>, Option<i64>), TimeOverflow>
    decreases evs.len(),
{
    if evs.len() == 0 {
        Ok((seq![], None))
    } else {
        match pair_events(evs.drop_last(), min) {
            Err(e) => Err(e),
            Ok((done, open)) => pair_step(done, open, evs.last(), min),
        }
    }
}

/// What `power_log_sessions` returns for `lines`.
pub open spec fn power_log_sessions_of(lines: Seq<Seq<char>>, min: int) -> Result<(Seq<Span>, Option<i64>), TimeOverflow> {
    if regex_compiles(POWER_LOG_PATTERN@) {
        pair_events(sort_events(power_events(lines)), min)
    } else {
        Ok((seq![], None))
    }
}

/// What pairing keeps true of the sessions and of the session left open.
pub open spec fn paired_well(evs: Seq<PowerEvent>, done: Seq<Span>, open: Option<i64>, min: int) -> bool {
    &&& forall|k: int| 0 <= k < done.len() ==> #[trigger] done[k].to - done[k].from >= min
    &&& all_proper(done)
    &&& all_wf(done)
    &&& forall|k: int, l: int| 0 <= k < l < done.len() ==> done[k].to <= done[l].from
    &&& (open matches Some(st) ==> in_calendar(st as int) && forall|k: int|
        0 <= k < done.len() ==> #[trigger] done[k].to <= st)
    &&& evs.len() > 0 ==> (forall|k: int| 0 <= k < done.len() ==> #[trigger] done[k].to
        <= evs.last().at)
    &&& evs.len() > 0 ==> (open matches Some(st) ==> st <= evs.last().at)
    &&& evs.len() == 0 ==> done.len() == 0 && open is None
}

/// Law: on events ordered by time, every session lasts at least `min` seconds, ends no earlier
/// than it starts and no later than the next one starts, and the session left open starts no
/// earlier than every session ends.
pub proof fn lemma_pair_events(evs: Seq<PowerEvent>, min: int)
    requires
        events_sorted(evs),
        forall|i: int| 0 <= i < evs.len() ==> in_calendar(#[trigger] evs[i].at as int),
    ensures
        pair_events(evs, min) matches Ok((done, open)) ==> paired_well(evs, done, open, min),
    decreases evs.len(),
{
    if evs.len() > 0 {
        let p = evs.drop_last();
        assert(events_sorted(p));
        assert forall|i: int| 0 <= i < p.len() implies in_calendar(#[trigger] p[i].at as int) by {
            assert(p[i] == evs[i]);
        }
        lemma_pair_events(p, min);
        let x = evs.last();
        assert(in_calendar(evs[evs.len() - 1].at as int));
        if p.len() > 0 {
            assert(p.last().at <= x.at);
        }
        match pair_events(p, min) {
            Err(_) => {},
            Ok((done0, open0)) => {
                if x.is_start {
                } else {
                    match open0 {
                        None => {},
                        Some(st) => {
                            if delta_fits(min) && x.at - st >= min {
                                let done = done0.push(Span { from: st, to: x.at });
                                assert forall|k: int, l: int| 0 <= k < l < done.len() implies done[k].to
                                    <= done[l].from by {
                                    if l == done.len() - 1 {
                                        assert(done0[k].to <= st);
                                    } else {
                                        assert(done[k] == done0[k] && done[l] == done0[l]);
                                    }
                                }
                                assert forall|k: int| 0 <= k < done.len() implies #[trigger] done[k].wf() by {
                                    if k < done0.len() {
                                        assert(done0[k].wf());
                                    }
                                }
                                assert forall|k: int| 0 <= k < done.len() implies #[trigger] done[k].is_proper() by {
                                    if k < done0.len() {
                                        assert(done0[k].is_proper());
                                    }
                                }
                                assert forall|k: int| 0 <= k < done.len() implies #[trigger] done[k].to
                                    <= evs.last().at by {
                                    if k < done0.len() {
                                        assert(done0[k].to <= p.last().at);
                                    }
                                }
                            }
                        },
                    }
                }
            },
        }
    }
}

/// Reads one power-log line.
fn read_power_line(line: &str, pattern: &Pattern) -> (e: Option<PowerEvent>)
    requires
        pattern.source() == POWER_LOG_PATTERN@,
    ensures
        e == power_event(line@),
        e matches Some(ev) ==> in_calendar(ev.at as int),
{
    let g = match pattern.captures(line) {
        Some(g) => g,
        None => return None,
    };
    let empty = String::new();
    let dt_text: &String = match group(&g, 1) {
        Some(t) => t,
        None => &empty,
    };
    let category: &String = match group(&g, 2) {
        Some(t) => t,
        None => &empty,
    };
    let rest: &String = match group(&g, 3) {
        Some(t) => t,
        None => &empty,
    };
    let at = match parse_timestamp(dt_text.as_str(), ACTIVITY_DATE_FORMAT) {
        Some(t) => t,
        None => return None,
    };
    let cat = chars_of(category.as_str());
    let wake = chars_of("Wake");
    let sleep = chars_of("Sleep");
    let is_wake = cat.len() == wake.len() && seq_contains(&cat, &wake);
    let is_sleep = cat.len() == sleep.len() && seq_contains(&cat, &sleep);
    proof {
        lemma_equal_by_containment(cat@, "Wake"@);
        lemma_equal_by_containment(cat@, "Sleep"@);
    }
    let r = rest.as_str();
    if str_contains(r, "Display is turned on") || (is_wake && (str_contains(r, "due to UserActivity")
        || str_contains(r, "due to smc.sysState.Wake") || str_contains(r, "due to acattach")
        || str_contains(r, "HID Activity"))) {
        Some(PowerEvent { at, is_start: true })
    } else if str_contains(r, "Display is turned off") || (is_sleep && (str_contains(
        r,
        "Clamshell Sleep",
    ) || str_contains(r, "Idle Sleep") || str_contains(r, "Software Sleep"))) {
        Some(PowerEvent { at, is_start: false })
    } else {
        None
    }
}

/// Two texts of the same length are equal exactly when one occurs in the other.
proof fn lemma_equal_by_containment(a: Seq<char>, b: Seq<char>)
    ensures
        (a.len() == b.len() && has_substring(a, b)) == (a == b),
{
    if a.len() == b.len() && has_substring(a, b) {
        let i = choose|i: int| crate::text::occurs_at(a, b, i);
        assert(i == 0);
        assert(a.subrange(0, a.len() as int) =~= a);
    }
    if a == b {
        assert(a.subrange(0, b.len() as int) =~= b);
        assert(crate::text::occurs_at(a, b, 0));
    }
}

/// Reads power-log lines into sessions: activity opens a session, inactivity closes it, and a
/// closed session is kept when it lasted at least `min_duration_sec` seconds. Events are taken
/// in order of time. Also returns the start of the session still open at the end, if any.
/// `TimeOverflow` when a session is closed while `min_duration_sec` is beyond what a duration
/// holds.
pub fn power_log_sessions(lines: &Vec<String>, min_duration_sec: i64) -> (r: Result<
    (Vec<Span>, Option<i64>),
    TimeOverflow,
>)
    ensures
        match r {
            Ok((done, open)) => power_log_sessions_of(lines_text(lines@), min_duration_sec as int)
                == Ok::<(Seq<Span>, Option<i64>), TimeOverflow>((done@, open)),
            Err(e) => power_log_sessions_of(lines_text(lines@), min_duration_sec as int) == Err::<
                (Seq<Span>, Option<i64>),
                TimeOverflow,
            >(e),
        },
        r matches Ok((done, open)) ==> {
            &&& all_wf(done@)
            &&& all_proper(done@)
            &&& forall|k: int| 0 <= k < done@.len() ==> #[trigger] done@[k].to - done@[k].from
                >= min_duration_sec
            &&& (open matches Some(st) ==> in_calendar(st as int) && (done@.len() > 0
                ==> done@.last().to <= st))
        },
{
    let pattern = match Pattern::compile(POWER_LOG_PATTERN) {
        Some(p) => p,
        None => return Ok((Vec::new(), None)),
    };
    let mut events: Vec<PowerEvent> = Vec::new();
    let n = lines.len();
    let mut i: usize = 0;
    while i < n
        invariant
            n == lines.len(),
            i <= n,
            pattern.source() == POWER_LOG_PATTERN@,
            events@ == power_events(lines_text(lines@).take(i as int)),
            forall|k: int| 0 <= k < events@.len() ==> in_calendar(#[trigger] events@[k].at as int),
        decreases n - i,
    {
        proof {
            let t = lines_text(lines@);
            assert(t.take(i + 1).drop_last() =~= t.take(i as int));
            assert(t.take(i + 1).last() == lines@[i as int]@);
        }
        match read_power_line(lines[i].as_str(), &pattern) {
            Some(e) => events.push(e),
            None => {},
        }
        i = i + 1;
    }
    assert(lines_text(lines@).take(n as int) =~= lines_text(lines@));
    let sorted = sort_power_events(&events);
    proof {
        lemma_sort_events(events@);
        lemma_sort_events_members(events@);
        assert forall|k: int| 0 <= k < sorted@.len() implies in_calendar(#[trigger] sorted@[k].at as int) by {
            let q = choose|q: int| 0 <= q < events@.len() && #[trigger] sort_events(events@)[k] == events@[q];
        }
    }
    let mut done: Vec<Span> = Vec::new();
    let mut open: Option<i64> = None;
    let m = sorted.len();
    let mut j: usize = 0;
    while j < m
        invariant
            m == sorted.len(),
            j <= m,
            events_sorted(sorted@),
            sorted@ == sort_events(power_events(lines_text(lines@))),
            regex_compiles(POWER_LOG_PATTERN@),
            forall|k: int| 0 <= k < sorted@.len() ==> in_calendar(#[trigger] sorted@[k].at as int),
            pair_events(sorted@.take(j as int), min_duration_sec as int) == Ok::<
                (Seq<Span>, Option<i64>),
                TimeOverflow,
            >((done@, open)),
        decreases m - j,
    {
        let e = sorted[j];
        proof {
            assert(sorted@.take(j + 1).drop_last() =~= sorted@.take(j as int));
            assert(sorted@.take(j + 1).last() == e);
        }
        if e.is_start {
            if open.is_none() {
                open = Some(e.at);
            }
        } else {
            match open {
                None => {},
                Some(st) => {
                    if (min_duration_sec as i128) < -DELTA_LIMIT || (min_duration_sec as i128)
                        > DELTA_LIMIT {
                        proof {
                            lemma_pair_err_stays(sorted@, min_duration_sec as int, j + 1);
                        }
                        return Err(TimeOverflow);
                    }
                    assert(in_calendar(e.at as int));
                    if e.at as i128 - st as i128 >= min_duration_sec as i128 {
                        done.push(Span { from: st, to: e.at });
                    }
                    open = None;
                },
            }
        }
        j = j + 1;
    }
    proof {
        assert(sorted@.take(m as int) =~= sorted@);
        lemma_pair_events(sorted@, min_duration_sec as int);
    }
    Ok((done, open))
}

/// Sorting keeps every event's time within the calendar.
proof fn lemma_sort_events_members(s: Seq<PowerEvent>)
    ensures
        forall|i: int| 0 <= i < sort_events(s).len() ==> exists|k: int|
            0 <= k < s.len() && #[trigger] sort_events(s)[i] == s[k],
    decreases s.len(),
{
    if s.len() > 0 {
        lemma_sort_events_members(s.drop_last());
        lemma_insert_event_members(sort_events(s.drop_last()), s.last());
        let r = sort_events(s);
        let p = sort_events(s.drop_last());
        assert forall|i: int| 0 <= i < r.len() implies exists|k: int|
            0 <= k < s.len() && #[trigger] r[i] == s[k] by {
            if r[i] == s.last() {
                assert(s[s.len() - 1] == r[i]);
            } else {
                let q = choose|q: int| 0 <= q < p.len() && p[q] == r[i];
                let k = choose|k: int| 0 <= k < s.len() - 1 && #[trigger] p[q] == s.drop_last()[k];
                assert(s[k] == r[i]);
            }
        }
    }
}

proof fn lemma_insert_event_members(sorted: Seq<PowerEvent>, x: PowerEvent)
    ensures
        forall|i: int| 0 <= i < insert_event(sorted, x).len() ==> #[trigger] insert_event(sorted, x)[i] == x
            || exists|q: int| 0 <= q < sorted.len() && sorted[q] == insert_event(sorted, x)[i],
    decreases sorted.len(),
{
    if sorted.len() == 0 || sorted.last().at <= x.at {
        let r = insert_event(sorted, x);
        assert forall|i: int| 0 <= i < r.len() implies #[trigger] r[i] == x || exists|q: int|
            0 <= q < sorted.len() && sorted[q] == r[i] by {
            if i < sorted.len() {
                assert(sorted[i] == r[i]);
            }
        }
    } else {
        let d = sorted.drop_last();
        lemma_insert_event_members(d, x);
        let r = insert_event(sorted, x);
        let r0 = insert_event(d, x);
        assert forall|i: int| 0 <= i < r.len() implies #[trigger] r[i] == x || exists|q: int|
            0 <= q < sorted.len() && sorted[q] == r[i] by {
            if i == r.len() - 1 {
                assert(sorted[sorted.len() - 1] == r[i]);
            } else {
                assert(r[i] == r0[i]);
                if r0[i] != x {
                    let q = choose|q: int| 0 <= q < d.len() && d[q] == r0[i];
                    assert(sorted[q] == r[i]);
                }
            }
        }
    }
}

/// Once pairing gives `TimeOverflow`, taking in more events gives it too.
proof fn lemma_pair_err_stays(evs: Seq<PowerEvent>, min: int, k: int)
    requires
        0 <= k <= evs.len(),
        pair_events(evs.take(k), min) is Err,
    ensures
        pair_events(evs, min) is Err,
    decreases evs.len() - k,
{
    if k < evs.len() {
        assert(evs.take(k + 1).drop_last() =~= evs.take(k));
        lemma_pair_err_stays(evs, min, k + 1);
    } else {
        assert(evs.take(k) =~= evs);
    }
}


// ---------------------------------------------------------------------------
// Writing sessions back as boot records
// ---------------------------------------------------------------------------

/// `a / b` rounded toward zero, for positive `b`.
pub open spec fn trunc_div(a: int, b: int) -> int {
    if a >= 0 { a / b } else { -((-a) / b) }
}

/// What is left of `a` after taking out `trunc_div(a, b)` times `b`; it has the sign of `a`.
pub open spec fn trunc_rem(a: int, b: int) -> int {
    a - b * trunc_div(a, b)
}

/// A session's length as `(hh:mm)`, or `(d+hh:mm)` when it lasts a day or more.
pub open spec fn length_text(seconds: int) -> Seq<char> {
    let days = trunc_div(seconds, 86400);
    let hours = trunc_rem(trunc_div(seconds, 3600), 24);
    let minutes = trunc_rem(trunc_div(seconds, 60), 60);
    if days > 0 {
        "("@ + int_text(days) + "+"@ + zero_padded(hours, 2) + ":"@ + zero_padded(minutes, 2) + ")"@
    } else {
        "("@ + zero_padded(hours, 2) + ":"@ + zero_padded(minutes, 2) + ")"@
    }
}

/// A closed session written as a boot record.
pub open spec fn session_line(s: Span) -> Seq<char> {
    "reboot   system boot  "@ + date_text(s.from as int, SESSION_DATE_FORMAT@) + " - "@ + date_text(
        s.to as int,
        SESSION_DATE_FORMAT@,
    ) + "  "@ + length_text(s.to - s.from)
}

/// The session still open, written as a boot record of a system still running.
pub open spec fn live_line(start: int) -> Seq<char> {
    "reboot   system boot  "@ + date_text(start, SESSION_DATE_FORMAT@) + "   still running"@
}

/// The boot records of `spans`, then that of the open session if there is one.
pub open spec fn ranwhen_lines(spans: Seq<Span>, live: Option<i64>) -> Seq<Seq<char>> {
    spans.map_values(|s: Span| session_line(s)) + match live {
        Some(t) => seq![live_line(t as int)],
        None => Seq::<Seq<char>>::empty(),
    }
}

/// `a` rounded toward zero after dividing by the positive `b`.
fn div_toward_zero(a: i64, b: i64) -> (q: i64)
    requires
        b > 0,
        a > i64::MIN,
    ensures
        q == trunc_div(a as int, b as int),
{
    if a >= 0 {
        a / b
    } else {
        -((-a) / b)
    }
}

/// Appends a session's length as `(hh:mm)`, or `(d+hh:mm)` from a day on.
pub fn push_length(out: &mut String, seconds: i64)
    requires
        seconds > i64::MIN,
    ensures
        final(out)@ == old(out)@ + length_text(seconds as int),
{
    let days = div_toward_zero(seconds, 86400);
    let h = div_toward_zero(seconds, 3600);
    let hours = h - 24 * div_toward_zero(h, 24);
    let m = div_toward_zero(seconds, 60);
    let minutes = m - 60 * div_toward_zero(m, 60);
    out.append("(");
    if days > 0 {
        push_int(out, days);
        out.append("+");
    }
    push_int_zero_padded(out, hours, 2);
    out.append(":");
    push_int_zero_padded(out, minutes, 2);
    out.append(")");
    assert(final(out)@ =~= old(out)@ + length_text(seconds as int));
}

/// Returns a closed session written as a boot record.
pub fn format_session_line(s: &Span) -> (line: String)
    requires
        s.wf(),
    ensures
        line@ == session_line(*s),
{
    let mut line = String::new();
    line.append("reboot   system boot  ");
    push_date(&mut line, s.from, SESSION_DATE_FORMAT);
    line.append(" - ");
    push_date(&mut line, s.to, SESSION_DATE_FORMAT);
    line.append("  ");
    push_length(&mut line, s.to - s.from);
    assert(line@ =~= session_line(*s));
    line
}

/// Writes the sessions as boot records, followed, when a session is still open, by a record
/// of a system still running since it started.
pub fn format_ranwhen_lines(spans: &Vec<Span>, live_session: Option<i64>) -> (lines: Vec<String>)
    requires
        all_wf(spans@),
        live_session matches Some(t) ==> in_calendar(t as int),
    ensures
        lines_text(lines@) == ranwhen_lines(spans@, live_session),
{
    let mut lines: Vec<String> = Vec::new();
    let n = spans.len();
    let mut i: usize = 0;
    while i < n
        invariant
            n == spans.len(),
            i <= n,
            all_wf(spans@),
            lines_text(lines@) == spans@.take(i as int).map_values(|s: Span| session_line(s)),
        decreases n - i,
    {
        assert(spans@[i as int].wf());
        let line = format_session_line(&spans[i]);
        let ghost prev = lines@;
        lines.push(line);
        proof {
            assert(lines_text(lines@) =~= lines_text(prev).push(line@));
            assert(spans@.take(i + 1).map_values(|s: Span| session_line(s)) =~= spans@.take(
                i as int,
            ).map_values(|s: Span| session_line(s)).push(session_line(spans@[i as int])));
        }
        i = i + 1;
    }
    assert(spans@.take(n as int) =~= spans@);
    match live_session {
        Some(t) => {
            let mut line = String::new();
            line.append("reboot   system boot  ");
            push_date(&mut line, t, SESSION_DATE_FORMAT);
            line.append("   still running");
            assert(line@ =~= live_line(t as int));
            lines.push(line);
        },
        None => {},
    }
    assert(lines_text(lines@) =~= ranwhen_lines(spans@, live_session));
    lines
}

// ---------------------------------------------------------------------------
// Combining sessions
// ---------------------------------------------------------------------------

/// The session still open, kept when it starts no earlier than every merged session ends.
pub open spec fn live_after(merged: Seq<Span>, open: Option<i64>) -> Option<i64> {
    match open {
        Some(w) => if merged.len() == 0 || w >= merged.last().to {
            Some(w)
        } else {
            None
        },
        None => None,
    }
}

/// Merges the stored sessions with those read from the display and power logs (pauses shorter
/// than `SESSION_GAP_SECONDS` merged away), and keeps the open session when it starts no
/// earlier than the last merged session ends.
pub fn combine_sessions(
    stored: Vec<Span>,
    activity: Vec<Span>,
    power: Vec<Span>,
    open: Option<i64>,
) -> (r: (Vec<Span>, Option<i64>))
    ensures
        r.0@ == merged_spans(stored@ + activity@ + power@, SESSION_GAP_SECONDS - 1),
        r.1 == live_after(r.0@, open),
        all_proper(stored@ + activity@ + power@) ==> is_chain(r.0@),
        all_proper(stored@ + activity@ + power@) ==> forall|i: int|
            0 <= i < stored@.len() + activity@.len() + power@.len() ==> held_by(
                r.0@,
                #[trigger] (stored@ + activity@ + power@)[i],
            ),
        all_proper(stored@ + activity@ + power@) ==> forall|i: int, j: int|
            0 <= i && j == i + 1 && j < r.0@.len() ==> r.0@[j].from - r.0@[i].to
                >= SESSION_GAP_SECONDS,
        all_proper(stored@ + activity@ + power@) && all_wf(stored@ + activity@ + power@) ==> all_wf(
            r.0@,
        ),
{
    let ghost input = stored@ + activity@ + power@;
    let mut all = stored;
    let mut a = activity;
    let mut p = power;
    all.append(&mut a);
    all.append(&mut p);
    assert(all@ =~= input);
    let merged = merge_spans(all, SESSION_GAP_SECONDS - 1);
    proof {
        if all_proper(input) {
            crate::span::lemma_merged_spans(input, SESSION_GAP_SECONDS - 1);
            assert(gaps_exceed(merged@, SESSION_GAP_SECONDS - 1));
        }
    }
    let live = match open {
        Some(w) => if merged.len() == 0 || w >= merged[merged.len() - 1].to {
            Some(w)
        } else {
            None
        },
        None => None,
    };
    (merged, live)
}

/// Law: a kept open session starts no earlier than every merged session ends.
pub proof fn lemma_live_after_all(merged: Seq<Span>, open: Option<i64>)
    requires
        crate::span::is_chain(merged),
    ensures
        live_after(merged, open) matches Some(w) ==> forall|k: int|
            0 <= k < merged.len() ==> #[trigger] merged[k].to <= w,
{
    if let Some(w) = live_after(merged, open) {
        assert forall|k: int| 0 <= k < merged.len() implies #[trigger] merged[k].to <= w by {
            if k < merged.len() - 1 {
                assert(merged[k].to < merged[merged.len() - 1].from);
                assert(merged[merged.len() - 1].is_proper());
            }
        }
    }
}

// ---------------------------------------------------------------------------
// Where sessions are stored, and the background collector
// ---------------------------------------------------------------------------

/// The name under which a background collector is registered.
pub const PLIST_LABEL: &'static str = "com.gustawdaniel.ranwhen-collector";

/// The name of the file that stores the sessions of `host` (or of this machine).
pub open spec fn history_file_name_text(host: Option<Seq<char>>) -> Seq<char> {
    match host {
        Some(h) => "activity_sessions_"@ + h + ".log"@,
        None => "activity_sessions.log"@,
    }
}

/// The name of the file that stored the sessions of `host` before.
pub open spec fn legacy_history_file_name_text(host: Option<Seq<char>>) -> Seq<char> {
    match host {
        Some(h) => "history_"@ + h + ".txt"@,
        None => "history.txt"@,
    }
}

/// The view of an optional text.
pub open spec fn opt_str(s: Option<&str>) -> Option<Seq<char>> {
    match s {
        Some(s) => Some(s@),
        None => None,
    }
}

/// Returns the name of the file that stores the sessions of `host` (or of this machine).
pub fn history_file_name(host: Option<&str>) -> (name: String)
    ensures
        name@ == history_file_name_text(opt_str(host)),
{
    let mut name = String::new();
    match host {
        Some(h) => {
            name.append("activity_sessions_");
            name.append(h);
            name.append(".log");
        },
        None => {
            name.append("activity_sessions.log");
        },
    }
    assert(name@ =~= history_file_name_text(opt_str(host)));
    name
}

/// Returns the name of the file that stored the sessions of `host` before.
pub fn legacy_history_file_name(host: Option<&str>) -> (name: String)
    ensures
        name@ == legacy_history_file_name_text(opt_str(host)),
{
    let mut name = String::new();
    match host {
        Some(h) => {
            name.append("history_");
            name.append(h);
            name.append(".txt");
        },
        None => {
            name.append("history.txt");
        },
    }
    assert(name@ =~= legacy_history_file_name_text(opt_str(host)));
    name
}

/// The launch agent description's text before the label.
pub const PLIST_HEAD: &'static str = r#"<?xml version="1.0" encoding="UTF-8"?>
<!DOCTYPE plist PUBLIC "-//Apple//DTD PLIST 1.0//EN" "http://www.apple.com/DTDs/PropertyList-1.0.dtd">
<plist version="1.0">
<dict>
    <key>Label</key>
    <string>"#;
/// The launch agent description's text between the label and the program's path.
pub const PLIST_MIDDLE: &'static str = r#"</string>
    <key>ProgramArguments</key>
    <array>
        <string>"#;
/// The launch agent description's text after the program's path.
pub const PLIST_TAIL: &'static str = r#"</string>
        <string>--collect</string>
    </array>
    <key>StartInterval</key>
    <integer>1800</integer>
    <key>RunAtLoad</key>
    <true/>
    <key>StandardOutPath</key>
    <string>/Users/daniel/.local/share/ranwhen/collector.log</string>
    <key>StandardErrorPath</key>
    <string>/Users/daniel/.local/share/ranwhen/collector.err</string>
</dict>
</plist>
"#;

/// The launch agent description that runs `binary_path --collect` every half hour.
pub open spec fn launch_agent_text(binary_path: Seq<char>) -> Seq<char> {
    PLIST_HEAD@ + PLIST_LABEL@ + PLIST_MIDDLE@ + binary_path + PLIST_TAIL@
}

/// Returns the launch agent description that runs `binary_path --collect` every half hour.
pub fn launch_agent_plist(binary_path: &str) -> (plist: String)
    ensures
        plist@ == launch_agent_text(binary_path@),
{
    let mut plist = String::new();
    plist.append(PLIST_HEAD);
    plist.append(PLIST_LABEL);
    plist.append(PLIST_MIDDLE);
    plist.append(binary_path);
    plist.append(PLIST_TAIL);
    assert(plist@ =~= launch_agent_text(binary_path@));
    plist
}

/// The file name of the launch agent description.
pub open spec fn plist_file_name_text() -> Seq<char> {
    PLIST_LABEL@ + ".plist"@
}

/// Returns the file name of the launch agent description.
pub fn plist_file_name() -> (name: String)
    ensures
        name@ == plist_file_name_text(),
{
    let mut name = String::new();
    name.append(PLIST_LABEL);
    name.append(".plist");
    assert(name@ =~= plist_file_name_text());
    name
}

/// The lines of a service listing that mention the collector, each indented by two spaces.
pub open spec fn collector_lines(listing: Seq<Seq<char>>) -> Seq<Seq<char>>
    decreases listing.len(),
{
    if listing.len() == 0 {
        seq![]
    } else {
        let prev = collector_lines(listing.drop_last());
        if has_substring(listing.last(), PLIST_LABEL@) {
            prev.push("  "@ + listing.last())
        } else {
            prev
        }
    }
}

/// What the collector's status says, given the lines of the service listing of `host_name`.
pub open spec fn status_text(listing: Seq<Seq<char>>, host_name: Seq<char>) -> Seq<Seq<char>> {
    if collector_lines(listing).len() > 0 {
        seq!["Daemon '"@ + PLIST_LABEL@ + "' is ACTIVE on "@ + host_name + ":"@] + collector_lines(
            listing,
        )
    } else {
        seq!["Daemon '"@ + PLIST_LABEL@ + "' is NOT currently loaded on "@ + host_name + "."@]
    }
}

/// Returns what the collector's status says, given the lines of the service listing of
/// `host_name`: whether it is loaded, and the listing's lines that mention it.
pub fn daemon_status_lines(listing: &Vec<String>, host_name: &str) -> (lines: Vec<String>)
    ensures
        lines_text(lines@) == status_text(lines_text(listing@), host_name@),
{
    let mut found: Vec<String> = Vec::new();
    let n = listing.len();
    let mut i: usize = 0;
    while i < n
        invariant
            n == listing.len(),
            i <= n,
            lines_text(found@) == collector_lines(lines_text(listing@).take(i as int)),
        decreases n - i,
    {
        proof {
            let t = lines_text(listing@);
            assert(t.take(i + 1).drop_last() =~= t.take(i as int));
            assert(t.take(i + 1).last() == listing@[i as int]@);
        }
        if str_contains(listing[i].as_str(), PLIST_LABEL) {
            let mut line = String::new();
            line.append("  ");
            line.append(listing[i].as_str());
            found.push(line);
            assert(lines_text(found@) =~= collector_lines(lines_text(listing@).take(i + 1)));
        } else {
            assert(lines_text(found@) =~= collector_lines(lines_text(listing@).take(i + 1)));
        }
        i = i + 1;
    }
    assert(lines_text(listing@).take(n as int) =~= lines_text(listing@));
    let mut lines: Vec<String> = Vec::new();
    let mut head = String::new();
    head.append("Daemon '");
    head.append(PLIST_LABEL);
    if found.len() > 0 {
        head.append("' is ACTIVE on ");
        head.append(host_name);
        head.append(":");
        lines.push(head);
        lines.append(&mut found);
    } else {
        head.append("' is NOT currently loaded on ");
        head.append(host_name);
        head.append(".");
        lines.push(head);
    }
    assert(lines_text(lines@) =~= status_text(lines_text(listing@), host_name@));
    lines
}

/// Law: a readable power-log line of category `Sleep` whose message tells of a clamshell, idle or
/// software sleep, or of a line of any category that tells the display was turned off, records
/// the machine becoming inactive at its date, unless its message also tells the display was
/// turned on.
pub proof fn lemma_sleep_lines_end_activity(line: Seq<char>, g: Seq<Option<Seq<char>>>, at: i64)
    requires
        regex_captures(POWER_LOG_PATTERN@, line) == Some(g),
        parsed_timestamp(or_empty(group_at(g, 1)), ACTIVITY_DATE_FORMAT@) == Some(at),
        !has_substring(or_empty(group_at(g, 3)), "Display is turned on"@),
        has_substring(or_empty(group_at(g, 3)), "Display is turned off"@) || (or_empty(
            group_at(g, 2),
        ) == "Sleep"@ && (has_substring(or_empty(group_at(g, 3)), "Clamshell Sleep"@)
            || has_substring(or_empty(group_at(g, 3)), "Idle Sleep"@) || has_substring(
            or_empty(group_at(g, 3)),
            "Software Sleep"@,
        ))),
        !(or_empty(group_at(g, 2)) == "Wake"@),
    ensures
        power_event(line) == Some(PowerEvent { at, is_start: false }),
{
}

/// Law: a readable power-log line whose message tells the display was turned on, or of category
/// `Wake` whose message tells of user activity, a system wake, a charger attached or HID
/// activity, records the machine becoming active at its date.
pub proof fn lemma_wake_lines_start_activity(line: Seq<char>, g: Seq<Option<Seq<char>>>, at: i64)
    requires
        regex_captures(POWER_LOG_PATTERN@, line) == Some(g),
        parsed_timestamp(or_empty(group_at(g, 1)), ACTIVITY_DATE_FORMAT@) == Some(at),
        has_substring(or_empty(group_at(g, 3)), "Display is turned on"@) || (or_empty(
            group_at(g, 2),
        ) == "Wake"@ && (has_substring(or_empty(group_at(g, 3)), "due to UserActivity"@)
            || has_substring(or_empty(group_at(g, 3)), "due to smc.sysState.Wake"@)
            || has_substring(or_empty(group_at(g, 3)), "due to acattach"@) || has_substring(
            or_empty(group_at(g, 3)),
            "HID Activity"@,
        ))),
    ensures
        power_event(line) == Some(PowerEvent { at, is_start: true }),
{
}

/// Law: a session opened by an activity is closed by the next inactivity, and kept, from the one
/// to the other, when it lasted at least `min` seconds; an inactivity with no session open, or a
/// second activity while one is open, changes nothing.
pub proof fn lemma_pairing_steps(done: Seq<Span>, open: Option<i64>, e: PowerEvent, min: int)
    requires
        delta_fits(min),
    ensures
        e.is_start && open is None ==> pair_step(done, open, e, min) == Ok::<
            (Seq<Span>, Option<i64>),
            TimeOverflow,
        >((done, Some(e.at))),
        e.is_start && open is Some ==> pair_step(done, open, e, min) == Ok::<
            (Seq<Span>, Option<i64>),
            TimeOverflow,
        >((done, open)),
        !e.is_start && open is None ==> pair_step(done, open, e, min) == Ok::<
            (Seq<Span>, Option<i64>),
            TimeOverflow,
        >((done, None)),
        !e.is_start ==> (open matches Some(st) ==> pair_step(done, open, e, min) == Ok::<
            (Seq<Span>, Option<i64>),
            TimeOverflow,
        >(
            (
                if e.at - st >= min {
                    done.push(Span { from: st, to: e.at })
                } else {
                    done
                },
                None,
            ),
        )),
{
}

} // verus!
