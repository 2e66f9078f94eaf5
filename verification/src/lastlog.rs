//! Reading the boot records that `last -R -F reboot` prints into time spans.
use vstd::prelude::*;
use crate::clock::{
    in_calendar, instant_in_calendar, parse_timestamp, parsed_timestamp, MAX_TIMESTAMP, MIN_TIMESTAMP,
};
use crate::pattern::{group, group_at, regex_captures, Pattern};
use crate::span::{later, Span};
use crate::text::{decimal_i64, has_substring, parse_i64, str_contains};

verus! {

/// A boot record: the boot time, then whatever follows it.
pub const BOOT_LINE_PATTERN: &'static str = r"^reboot\s+system\s+boot\s+(?:(?:\S+)\s+)?(?:Mon|Tue|Wed|Thu|Fri|Sat|Sun)\s+([A-Za-z]{3}\s+[\s\d]\d\s+\d{2}:\d{2}:\d{2}\s+\d{4})\s*(.*)";

/// The end of a boot record when the shutdown time is given.
pub const SHUTDOWN_PATTERN: &'static str = r"^-\s+(?:Mon|Tue|Wed|Thu|Fri|Sat|Sun)\s+([A-Za-z]{3}\s+[\s\d]\d\s+\d{2}:\d{2}:\d{2}\s+\d{4})";

/// The end of a boot record when only the uptime is given: `(days+hours:minutes)`.
pub const UPTIME_PATTERN: &'static str = r"\((?:(\d+)\+)?(-?\d+):(\d+)\)";

/// How the dates of a boot record are written, e.g. `Jan  5 10:00:00 2024`.
pub const RECORD_DATE_FORMAT: &'static str = "%b %e %H:%M:%S %Y";

/// What marks a boot record of a system that is still up.
pub const STILL_RUNNING: &'static str = "still running";

/// The largest number of whole seconds that a chrono `TimeDelta` holds, either way.
pub const DELTA_LIMIT: i128 = 9223372036854775;

/// Where a boot record ends.
#[derive(Clone, Copy, Debug, PartialEq, Eq, Structural)]
pub enum SpanEnd {
    /// The system is still up: the span ends now.
    StillRunning,
    /// The span ends at this date-time.
    At(i64),
    /// The span lasts this long after the boot.
    After { days: i64, hours: i64, minutes: i64 },
}

/// The end of a span lies beyond what a date-time or a duration can hold.
#[derive(Clone, Copy, Debug, PartialEq, Eq, Structural)]
pub struct TimeOverflow;

/// A number of seconds that a chrono `TimeDelta` can hold.
pub open spec fn delta_fits(s: int) -> bool {
    -DELTA_LIMIT <= s <= DELTA_LIMIT
}

/// The end of a span starting at `from` and lasting `days`, `hours` and `minutes`.
pub open spec fn end_after(from: int, days: int, hours: int, minutes: int) -> Result<int, TimeOverflow> {
    let d = days * 86400;
    let h = hours * 3600;
    let m = minutes * 60;
    if delta_fits(d) && delta_fits(h) && delta_fits(d + h) && delta_fits(m) && delta_fits(d + h + m)
        && in_calendar(from + d + h + m) {
        Ok(from + d + h + m)
    } else {
        Err(TimeOverflow)
    }
}

/// The span, in milliseconds, that starts at the date-time `from` (in seconds) and ends as `end`
/// says, `now` being the current instant in milliseconds. A span never ends before it starts; a
/// negative number of hours means no uptime at all.
pub open spec fn span_of(from: i64, end: SpanEnd, now: i64) -> Result<Span, TimeOverflow> {
    let to: Result<int, TimeOverflow> = match end {
        SpanEnd::StillRunning => Ok(now as int),
        SpanEnd::At(t) => Ok(1000 * t),
        SpanEnd::After { days, hours, minutes } => if hours < 0 {
            Ok(1000 * from)
        } else {
            match end_after(from as int, days as int, hours as int, minutes as int) {
                Ok(t) => Ok(1000 * t),
                Err(e) => Err(e),
            }
        },
    };
    match to {
        Ok(t) => Ok(Span { from: (1000 * from) as i64, to: later(t as i64, (1000 * from) as i64) }),
        Err(e) => Err(e),
    }
}

/// Returns the span, in milliseconds, that starts at the date-time `from` (in seconds) and ends
/// as `end` says, `now` being the current instant in milliseconds, or `TimeOverflow` when the end
/// lies beyond what a duration or a date-time can hold.
pub fn span_from_end(from: i64, end: SpanEnd, now: i64) -> (span: Result<Span, TimeOverflow>)
    requires
        in_calendar(from as int),
        instant_in_calendar(now as int),
        end matches SpanEnd::At(t) ==> in_calendar(t as int),
    ensures
        span == span_of(from, end, now),
        span matches Ok(s) ==> s.wf_ms() && s.is_proper() && s.from == 1000 * from,
{
    let to: i64 = match end {
        SpanEnd::StillRunning => now,
        SpanEnd::At(t) => 1000 * t,
        SpanEnd::After { days, hours, minutes } => {
            if hours < 0 {
                1000 * from
            } else {
                let d: i128 = days as i128 * 86400;
                let h: i128 = hours as i128 * 3600;
                let m: i128 = minutes as i128 * 60;
                let limit = DELTA_LIMIT;
                if d < -limit || d > limit || h < -limit || h > limit || d + h < -limit || d + h
                    > limit || m < -limit || m > limit || d + h + m < -limit || d + h + m > limit {
                    return Err(TimeOverflow);
                }
                let end_time: i128 = from as i128 + d + h + m;
                if end_time < MIN_TIMESTAMP as i128 || end_time > MAX_TIMESTAMP as i128 {
                    return Err(TimeOverflow);
                }
                1000 * (end_time as i64)
            }
        },
    };
    let start: i64 = 1000 * from;
    let to = if to >= start { to } else { start };
    Ok(Span { from: start, to })
}

/// A number read from an optional group, 0 when it is absent or does not read.
pub open spec fn number_or_zero(g: Option<Seq<char>>) -> i64 {
    match g {
        Some(t) => match decimal_i64(t) {
            Some(v) => v,
            None => 0,
        },
        None => 0,
    }
}

/// How the text after the boot time says the span ends, `None` when it says nothing readable.
pub open spec fn record_end(rest: Seq<char>) -> Option<SpanEnd> {
    if has_substring(rest, STILL_RUNNING@) {
        Some(SpanEnd::StillRunning)
    } else {
        match regex_captures(SHUTDOWN_PATTERN@, rest) {
            Some(g) => match group_at(g, 1) {
                Some(t) => match parsed_timestamp(t, RECORD_DATE_FORMAT@) {
                    Some(v) => Some(SpanEnd::At(v)),
                    None => None,
                },
                None => None,
            },
            None => match regex_captures(UPTIME_PATTERN@, rest) {
                Some(g) => Some(
                    SpanEnd::After {
                        days: number_or_zero(group_at(g, 1)),
                        hours: number_or_zero(group_at(g, 2)),
                        minutes: number_or_zero(group_at(g, 3)),
                    },
                ),
                None => None,
            },
        }
    }
}

/// What a line gives: `Ok(None)` for a line that is not a readable boot record.
pub open spec fn boot_line_span(line: Seq<char>, now: i64) -> Result<Option<Span>, TimeOverflow> {
    match regex_captures(BOOT_LINE_PATTERN@, line) {
        None => Ok(None),
        Some(g) => match group_at(g, 1) {
            None => Ok(None),
            Some(from_text) => match parsed_timestamp(from_text, RECORD_DATE_FORMAT@) {
                None => Ok(None),
                Some(from) => {
                    let rest = match group_at(g, 2) {
                        Some(r) => r,
                        None => Seq::<char>::empty(),
                    };
                    match record_end(rest) {
                        None => Ok(None),
                        Some(end) => match span_of(from, end, now) {
                            Ok(s) => Ok(Some(s)),
                            Err(e) => Err(e),
                        },
                    }
                },
            },
        },
    }
}

/// The spans of the readable boot records among `lines`, in order; `TimeOverflow` when some
/// record ends beyond what a date-time can hold.
pub open spec fn boot_spans(lines: Seq<Seq<char>>, now: i64) -> Result<Seq<Span>, TimeOverflow>
    decreases lines.len(),
{
    if lines.len() == 0 {
        Ok(seq![])
    } else {
        match boot_spans(lines.drop_last(), now) {
            Err(e) => Err(e),
            Ok(prev) => match boot_line_span(lines.last(), now) {
                Err(e) => Err(e),
                Ok(None) => Ok(prev),
                Ok(Some(s)) => Ok(prev.push(s)),
            },
        }
    }
}

/// The view of a list of lines.
pub open spec fn lines_text(lines: Seq<String>) -> Seq<Seq<char>> {
    lines.map_values(|l: String| l@)
}

/// The three compiled patterns that read a boot record.
pub struct LinePatterns {
    boot_line: Pattern,
    shutdown: Pattern,
    uptime: Pattern,
}

impl LinePatterns {
    #[verifier::type_invariant]
    closed spec fn compiled_from_constants(self) -> bool {
        &&& self.boot_line.source() == BOOT_LINE_PATTERN@
        &&& self.shutdown.source() == SHUTDOWN_PATTERN@
        &&& self.uptime.source() == UPTIME_PATTERN@
    }

    /// Compiles the patterns; `None` when the regular-expression engine rejects one of them.
    pub fn new() -> (p: Option<LinePatterns>)
        ensures
            p is Some == (crate::pattern::regex_compiles(BOOT_LINE_PATTERN@)
                && crate::pattern::regex_compiles(SHUTDOWN_PATTERN@)
                && crate::pattern::regex_compiles(UPTIME_PATTERN@)),
    {
        let boot_line = Pattern::compile(BOOT_LINE_PATTERN);
        let shutdown = Pattern::compile(SHUTDOWN_PATTERN);
        let uptime = Pattern::compile(UPTIME_PATTERN);
        match (boot_line, shutdown, uptime) {
            (Some(boot_line), Some(shutdown), Some(uptime)) => Some(
                LinePatterns { boot_line, shutdown, uptime },
            ),
            _ => None,
        }
    }
}

/// A number read from an optional group, 0 when it is absent or does not read.
fn read_number(g: Option<&String>) -> (v: i64)
    ensures
        v == number_or_zero(
            match g {
                Some(s) => Some(s@),
                None => None,
            },
        ),
{
    match g {
        Some(s) => match parse_i64(s.as_str()) {
            Some(v) => v,
            None => 0,
        },
        None => 0,
    }
}

/// How the text after the boot time says the span ends.
fn read_record_end(rest: &str, patterns: &LinePatterns) -> (end: Option<SpanEnd>)
    ensures
        end == record_end(rest@),
        end matches Some(SpanEnd::At(t)) ==> in_calendar(t as int),
{
    proof {
        use_type_invariant(patterns);
    }
    if str_contains(rest, STILL_RUNNING) {
        return Some(SpanEnd::StillRunning);
    }
    match patterns.shutdown.captures(rest) {
        Some(g) => match group(&g, 1) {
            Some(t) => match parse_timestamp(t.as_str(), RECORD_DATE_FORMAT) {
                Some(v) => Some(SpanEnd::At(v)),
                None => None,
            },
            None => None,
        },
        None => match patterns.uptime.captures(rest) {
            Some(g) => {
                let days = read_number(group(&g, 1));
                let hours = read_number(group(&g, 2));
                let minutes = read_number(group(&g, 3));
                Some(SpanEnd::After { days, hours, minutes })
            },
            None => None,
        },
    }
}

/// Reads one line of `last` output: the span of a boot record, in milliseconds, `Ok(None)` for
/// any other line, `TimeOverflow` when the record ends beyond what a date-time can hold.
pub fn parse_line(line: &str, patterns: &LinePatterns, now: i64) -> (span: Result<
    Option<Span>,
    TimeOverflow,
>)
    requires
        instant_in_calendar(now as int),
    ensures
        span == boot_line_span(line@, now),
        span matches Ok(Some(s)) ==> s.wf_ms() && s.is_proper(),
{
    proof {
        use_type_invariant(patterns);
    }
    let g = match patterns.boot_line.captures(line) {
        Some(g) => g,
        None => return Ok(None),
    };
    let from_text = match group(&g, 1) {
        Some(t) => t,
        None => return Ok(None),
    };
    let from = match parse_timestamp(from_text.as_str(), RECORD_DATE_FORMAT) {
        Some(v) => v,
        None => return Ok(None),
    };
    let empty = String::new();
    let rest: &String = match group(&g, 2) {
        Some(r) => r,
        None => &empty,
    };
    match read_record_end(rest.as_str(), patterns) {
        None => Ok(None),
        Some(end) => match span_from_end(from, end, now) {
            Ok(s) => Ok(Some(s)),
            Err(e) => Err(e),
        },
    }
}

/// Reads every line of `last` output, keeping the spans (in milliseconds) of the boot records in
/// order; `TimeOverflow` when some record ends beyond what a date-time can hold.
pub fn parse_lines(lines: &Vec<String>, patterns: &LinePatterns, now: i64) -> (spans: Result<
    Vec<Span>,
    TimeOverflow,
>)
    requires
        instant_in_calendar(now as int),
    ensures
        match spans {
            Ok(v) => boot_spans(lines_text(lines@), now) == Ok::<Seq<Span>, TimeOverflow>(v@),
            Err(e) => boot_spans(lines_text(lines@), now) == Err::<Seq<Span>, TimeOverflow>(e),
        },
        spans matches Ok(v) ==> crate::span::all_wf_ms(v@) && crate::span::all_proper(v@),
{
    let mut spans: Vec<Span> = Vec::new();
    let n = lines.len();
    let mut i: usize = 0;
    while i < n
        invariant
            n == lines.len(),
            i <= n,
            instant_in_calendar(now as int),
            boot_spans(lines_text(lines@).take(i as int), now) == Ok::<Seq<Span>, TimeOverflow>(
                spans@,
            ),
            crate::span::all_wf_ms(spans@),
            crate::span::all_proper(spans@),
        decreases n - i,
    {
        proof {
            let t = lines_text(lines@);
            assert(t.take(i + 1).drop_last() =~= t.take(i as int));
            assert(t.take(i + 1).last() == lines@[i as int]@);
        }
        match parse_line(lines[i].as_str(), patterns, now) {
            Err(e) => {
                proof {
                    lemma_boot_spans_err_stays(lines_text(lines@), now, i as int + 1);
                }
                return Err(e);
            },
            Ok(None) => {},
            Ok(Some(s)) => {
                spans.push(s);
            },
        }
        i = i + 1;
    }
    assert(lines_text(lines@).take(n as int) =~= lines_text(lines@));
    Ok(spans)
}

/// Once some line gives `TimeOverflow`, reading more lines gives it too.
proof fn lemma_boot_spans_err_stays(lines: Seq<Seq<char>>, now: i64, k: int)
    requires
        0 <= k <= lines.len(),
        boot_spans(lines.take(k), now) is Err,
    ensures
        boot_spans(lines, now) is Err,
    decreases lines.len() - k,
{
    if k < lines.len() {
        assert(lines.take(k + 1).drop_last() =~= lines.take(k));
        lemma_boot_spans_err_stays(lines, now, k + 1);
    } else {
        assert(lines.take(k) =~= lines);
    }
}

/// Law: a span that ends after an uptime of `days`, `hours` and `minutes` (none negative) ends
/// exactly that long after the boot, when that end lies within the calendar; the current time
/// plays no part.
pub proof fn lemma_uptime_end(from: i64, days: i64, hours: i64, minutes: i64, now: i64)
    requires
        days >= 0,
        hours >= 0,
        minutes >= 0,
        in_calendar(from as int),
        in_calendar(from + 86400 * days + 3600 * hours + 60 * minutes),
    ensures
        span_of(from, SpanEnd::After { days, hours, minutes }, now) == Ok::<Span, TimeOverflow>(
            Span {
                from: (1000 * from) as i64,
                to: (1000 * (from + 86400 * days + 3600 * hours + 60 * minutes)) as i64,
            },
        ),
{
}

/// Law: an uptime with a negative number of hours gives a span of no length at the boot.
pub proof fn lemma_negative_uptime(from: i64, days: i64, hours: i64, minutes: i64, now: i64)
    requires
        hours < 0,
        in_calendar(from as int),
    ensures
        span_of(from, SpanEnd::After { days, hours, minutes }, now) == Ok::<Span, TimeOverflow>(
            Span { from: (1000 * from) as i64, to: (1000 * from) as i64 },
        ),
{
}

/// Law: a record that gives a shutdown time ends then, or at the boot if that is earlier; a
/// system still running ends now, or at the boot if now is earlier.
pub proof fn lemma_shutdown_and_running_ends(from: i64, t: i64, now: i64)
    requires
        in_calendar(from as int),
        in_calendar(t as int),
        instant_in_calendar(now as int),
    ensures
        span_of(from, SpanEnd::At(t), now) == Ok::<Span, TimeOverflow>(
            Span {
                from: (1000 * from) as i64,
                to: (1000 * (if t >= from { t } else { from })) as i64,
            },
        ),
        span_of(from, SpanEnd::StillRunning, now) == Ok::<Span, TimeOverflow>(
            Span {
                from: (1000 * from) as i64,
                to: if now >= 1000 * from { now } else { (1000 * from) as i64 },
            },
        ),
{
}

/// Every span read from boot records ends no earlier than it starts.
pub proof fn lemma_boot_spans_proper(lines: Seq<Seq<char>>, now: i64)
    ensures
        boot_spans(lines, now) matches Ok(p) ==> crate::span::all_proper(p),
    decreases lines.len(),
{
    if lines.len() > 0 {
        lemma_boot_spans_proper(lines.drop_last(), now);
    }
}

} // verus!
