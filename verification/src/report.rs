//! The report: a calendar of daily bars, a summary and a histogram over the hours of the day.
use vstd::prelude::*;
use crate::clock::{
    calendar_day, calendar_month, calendar_weekday, date_text, day_of_month, in_calendar,
    instant_in_calendar, month_of, push_date, weekday_from_monday, MAX_INSTANT, MS_PER_DAY,
};
use crate::render::{
    delta_short_text, delta_text, heading_text, push_delta, push_delta_short, push_heading,
    Styler, BAR_COLOR, BAR_COLOR_GRID, BAR_WEEKEND_COLOR, BAR_WEEKEND_COLOR_GRID,
    FOREGROUND_COLOR, GRID_COLOR, NIGHT_COLOR, NOON_COLOR, SUNRISE_COLOR, SUNSET_COLOR,
    TIME_COLOR, TIME_TEXT_COLOR, WEEKDAY_COLOR, WEEKEND_COLOR,
};
use crate::lastlog::{
    boot_spans, lines_text, parse_lines, LinePatterns, BOOT_LINE_PATTERN, SHUTDOWN_PATTERN,
    UPTIME_PATTERN,
};
use crate::pattern::regex_compiles;
use crate::slots::{
    day_count, end_midnight, lemma_sum_push, midnight_of, renderable, slot_input, sum, SlotTable,
};
use crate::span::{covered, held_by, is_chain, lemma_merged_spans, merge_spans, merged_spans, Span};
use crate::text::{int_text, push_int, push_int_right_aligned, right_aligned};

verus! {

broadcast use vstd::string::group_string_axioms;

/// How a day's name is written: `Mon`.
pub const WEEKDAY_FORMAT: &'static str = "%a";
/// How a month's heading is written: `January 2024`.
pub const MONTH_FORMAT: &'static str = "%B %Y";
/// How the dates of the period are written: `January 05 2024`.
pub const PERIOD_FORMAT: &'static str = "%B %d %Y";
/// The grid line above the bars.
pub const GRID_HEADER: &'static str = "▆           ▆           ▆           ▆           ▆";
/// The grid line below the bars.
pub const GRID_FOOTER: &'static str = "▀           ▀           ▀           ▀           ▀";
/// Indentation of the grid lines.
pub const GRID_INDENT: &'static str = "        ";

/// The block character for a fill level from 0 (empty) to 8 (full).
pub open spec fn level_text(level: int) -> Seq<char> {
    if level <= 0 {
        " "@
    } else if level == 1 {
        "▁"@
    } else if level == 2 {
        "▂"@
    } else if level == 3 {
        "▃"@
    } else if level == 4 {
        "▄"@
    } else if level == 5 {
        "▅"@
    } else if level == 6 {
        "▆"@
    } else if level == 7 {
        "▇"@
    } else {
        "█"@
    }
}

fn level_char(level: u64) -> (s: &'static str)
    ensures
        s@ == level_text(level as int),
{
    if level == 0 {
        " "
    } else if level == 1 {
        "▁"
    } else if level == 2 {
        "▂"
    } else if level == 3 {
        "▃"
    } else if level == 4 {
        "▄"
    } else if level == 5 {
        "▅"
    } else if level == 6 {
        "▆"
    } else if level == 7 {
        "▇"
    } else {
        "█"
    }
}

/// The bar level (0 to 7) of a half hour with `ms` milliseconds of running time: seven times
/// the running share, rounded to the nearest whole number, halves up.
pub open spec fn bar_level(ms: int) -> int {
    let l = (14 * ms + 1800000) / 3600000;
    if l > 7 { 7 } else { l }
}

/// A day of the week, Monday being 0, that is Saturday or Sunday.
pub open spec fn is_weekend(w: u32) -> bool {
    w == 5 || w == 6
}

/// Colour of the bar of half hour `j` of a day.
pub open spec fn bar_color(weekend: bool, j: int) -> u8 {
    if weekend {
        if j % 12 == 0 { BAR_WEEKEND_COLOR_GRID } else { BAR_WEEKEND_COLOR }
    } else {
        if j % 12 == 0 { BAR_COLOR_GRID } else { BAR_COLOR }
    }
}

/// Background of column `j`: the grid colour on every sixth hour.
pub open spec fn grid_background(j: int) -> Option<u8> {
    if j % 12 == 0 { Some(GRID_COLOR) } else { None }
}

/// The first `j` bars of the day whose half hours start at `v[base]`.
#[verifier::opaque]
pub open spec fn day_bars(st: Styler, weekend: bool, v: Seq<i64>, base: int, j: int) -> Seq<char>
    decreases j,
{
    if j <= 0 {
        seq![]
    } else {
        day_bars(st, weekend, v, base, j - 1) + st.styled(
            level_text(bar_level(v[base + j - 1] as int)),
            Some(bar_color(weekend, j - 1)),
            grid_background(j - 1),
            false,
        )
    }
}

/// Midnight that starts day `d` of the table, as a date-time in seconds.
pub open spec fn day_at(t: SlotTable, d: int) -> int {
    t.first_day / 1000 + 86400 * d
}

/// A day's name and number: `Mon  5`.
#[verifier::opaque]
pub open spec fn day_name_text(day: int) -> Seq<char> {
    date_text(day, WEEKDAY_FORMAT@) + " "@ + right_aligned(int_text(day_of_month(day) as int), 2)
}

/// The line of day `d`: its name, a bar per half hour, and its running time.
#[verifier::opaque]
pub open spec fn day_line(st: Styler, t: SlotTable, d: int) -> Seq<char> {
    let day = day_at(t, d);
    let w = weekday_from_monday(day);
    let weekend = is_weekend(w);
    st.styled(
        day_name_text(day),
        Some(if weekend { WEEKEND_COLOR } else { WEEKDAY_COLOR }),
        None,
        w == 6,
    ) + "  "@ + day_bars(st, weekend, t.slot_ms@, 48 * d, 48) + st.styled(
        " "@,
        None,
        Some(GRID_COLOR),
        false,
    ) + " "@ + delta_short_text(st, sum(t.slot_ms@, 48 * d, 48 * d + 48) / 1000) + "\n"@
}

/// The hours above the bars, with the moon and the sun.
#[verifier::opaque]
pub open spec fn time_header(st: Styler) -> Seq<char> {
    "       0:00 "@ + st.styled("☾"@, Some(NIGHT_COLOR), None, false) + "      6:00 "@ + st.styled(
        "☀"@,
        Some(SUNRISE_COLOR),
        None,
        false,
    ) + "     12:00 "@ + st.styled("☀"@, Some(NOON_COLOR), None, false) + "     18:00 "@
        + st.styled("☀"@, Some(SUNSET_COLOR), None, false) + "     24:00 "@ + st.styled(
        "☽"@,
        Some(NIGHT_COLOR),
        None,
        false,
    )
}

/// The grid line above the bars, in the grid colour.
pub open spec fn grid_header(st: Styler) -> Seq<char> {
    st.styled(GRID_HEADER@, Some(GRID_COLOR), None, false)
}

/// The grid line below the bars, in the grid colour.
pub open spec fn grid_footer(st: Styler) -> Seq<char> {
    st.styled(GRID_FOOTER@, Some(GRID_COLOR), None, false)
}

/// What starts a month: two blank lines, the month's name, a blank line, the hours and the grid.
#[verifier::opaque]
pub open spec fn month_block(st: Styler, day: int) -> Seq<char> {
    "\n\n"@ + heading_text(st, date_text(day, MONTH_FORMAT@)) + "\n\n"@ + time_header(st) + "\n"@
        + GRID_INDENT@ + grid_header(st) + "\n"@
}

/// Day `d` with the month's start before it and the grid's end after it where they belong.
pub open spec fn day_block(st: Styler, t: SlotTable, d: int) -> Seq<char> {
    let day = day_at(t, d);
    (if d == 0 || month_of(day) != month_of(day_at(t, d - 1)) {
        month_block(st, day)
    } else {
        seq![]
    }) + day_line(st, t, d) + (if d + 1 >= t.days || month_of(day_at(t, d + 1)) != month_of(day) {
        GRID_INDENT@ + grid_footer(st) + "\n"@
    } else {
        seq![]
    })
}

/// The first `d` days of the calendar.
pub open spec fn calendar_text(st: Styler, t: SlotTable, d: int) -> Seq<char>
    decreases d,
{
    if d <= 0 {
        seq![]
    } else {
        calendar_text(st, t, d - 1) + day_block(st, t, d - 1)
    }
}

fn push_time_header(st: &Styler, out: &mut String)
    ensures
        final(out)@ == old(out)@ + time_header(*st),
{
    reveal(time_header);
    out.append("       0:00 ");
    st.push_styled(out, "☾", Some(NIGHT_COLOR), None, false);
    out.append("      6:00 ");
    st.push_styled(out, "☀", Some(SUNRISE_COLOR), None, false);
    out.append("     12:00 ");
    st.push_styled(out, "☀", Some(NOON_COLOR), None, false);
    out.append("     18:00 ");
    st.push_styled(out, "☀", Some(SUNSET_COLOR), None, false);
    out.append("     24:00 ");
    st.push_styled(out, "☽", Some(NIGHT_COLOR), None, false);
    assert(final(out)@ =~= old(out)@ + time_header(*st));
}

fn push_month_block(st: &Styler, out: &mut String, day: i64)
    requires
        in_calendar(day as int),
    ensures
        final(out)@ == old(out)@ + month_block(*st, day as int),
{
    reveal(month_block);
    out.append("\n\n");
    let mut name = String::new();
    push_date(&mut name, day, MONTH_FORMAT);
    push_heading(st, out, name.as_str());
    out.append("\n\n");
    push_time_header(st, out);
    out.append("\n");
    out.append(GRID_INDENT);
    st.push_styled(out, GRID_HEADER, Some(GRID_COLOR), None, false);
    out.append("\n");
    assert(final(out)@ =~= old(out)@ + month_block(*st, day as int));
}

fn push_day_line(st: &Styler, out: &mut String, t: &SlotTable, d: usize)
    requires
        renderable(*t),
        d < t.days,
    ensures
        final(out)@ == old(out)@ + day_line(*st, *t, d as int),
{
    let ghost v = t.slot_ms@;
    assert(d <= 200000000) by (nonlinear_arith)
        requires
            d < t.days,
            t.first_day + 86400000 * t.days <= MAX_INSTANT,
            t.first_day >= crate::clock::MIN_INSTANT,
    ;
    let day: i64 = t.first_day / 1000 + 86400 * d as i64;
    assert(in_calendar(day as int));
    let w = calendar_weekday(day);
    let weekend = w == 5 || w == 6;
    let mut name = String::new();
    push_date(&mut name, day, WEEKDAY_FORMAT);
    name.append(" ");
    push_int_right_aligned(&mut name, calendar_day(day) as i64, 2);
    assert(name@ =~= day_name_text(day as int)) by {
        reveal(day_name_text);
    }
    st.push_styled(
        out,
        name.as_str(),
        Some(if weekend { WEEKEND_COLOR } else { WEEKDAY_COLOR }),
        None,
        w == 6,
    );
    out.append("  ");
    let ghost before_bars = out@;
    assert(d * 48 + 48 <= v.len()) by (nonlinear_arith)
        requires
            d < t.days,
            v.len() == 48 * t.days,
    ;
    assert(v.len() == t.slot_ms.len());
    let base: usize = d * 48;
    assert(day_bars(*st, weekend, v, base as int, 0) =~= Seq::<char>::empty()) by {
        reveal(day_bars);
    }
    let mut day_sum: i64 = 0;
    let mut j: usize = 0;
    while j < 48
        invariant
            renderable(*t),
            v == t.slot_ms@,
            v.len() == t.slot_ms.len(),
            base + 48 <= v.len(),
            j <= 48,
            out@ == before_bars + day_bars(*st, weekend, v, base as int, j as int),
            day_sum == sum(v, base as int, base + j),
            0 <= day_sum <= 1800000 * j,
        decreases 48 - j,
    {
        let ms = t.slot_ms[base + j];
        assert(0 <= ms <= 1800000);
        let l = (14 * ms + 1800000) / 3600000;
        let level: u64 = if l > 7 { 7 } else { l as u64 };
        let grid = j % 12 == 0;
        let fg = if weekend {
            if grid { BAR_WEEKEND_COLOR_GRID } else { BAR_WEEKEND_COLOR }
        } else {
            if grid { BAR_COLOR_GRID } else { BAR_COLOR }
        };
        st.push_styled(out, level_char(level), Some(fg), if grid { Some(GRID_COLOR) } else { None }, false);
        proof {
            lemma_sum_push(v, base as int, base + j);
            reveal_with_fuel(day_bars, 2);
            assert(out@ =~= before_bars + day_bars(*st, weekend, v, base as int, j + 1));
        }
        day_sum = day_sum + ms;
        j = j + 1;
    }
    let ghost after_bars = out@;
    st.push_styled(out, " ", None, Some(GRID_COLOR), false);
    out.append(" ");
    push_delta_short(st, out, day_sum / 1000);
    out.append("\n");
    proof {
        let dd = d as int;
        assert(day as int == day_at(*t, dd));
        assert(base as int == 48 * dd);
        assert(day_sum == sum(v, 48 * dd, 48 * dd + 48));
        assert(weekend == is_weekend(weekday_from_monday(day_at(*t, dd))));
        reveal(day_line);
        assert(final(out)@ =~= old(out)@ + day_line(*st, *t, d as int));
    }
}

/// Appends the calendar: for every day, its bars, with each month's heading and grid around.
pub fn push_calendar(st: &Styler, out: &mut String, t: &SlotTable)
    requires
        renderable(*t),
    ensures
        final(out)@ == old(out)@ + calendar_text(*st, *t, t.days as int),
{
    let days = t.days;
    let mut d: usize = 0;
    let mut prev_month: u32 = 0;
    while d < days
        invariant
            renderable(*t),
            days == t.days,
            d <= days,
            d > 0 ==> prev_month == month_of(day_at(*t, d - 1)),
            out@ == old(out)@ + calendar_text(*st, *t, d as int),
        decreases days - d,
    {
        let ghost before = out@;
        assert(d <= 200000000) by (nonlinear_arith)
            requires
                d < t.days,
                t.first_day + 86400000 * t.days <= MAX_INSTANT,
                t.first_day >= crate::clock::MIN_INSTANT,
        ;
        let day: i64 = t.first_day / 1000 + 86400 * d as i64;
        assert(in_calendar(day as int));
        let month = calendar_month(day);
        if d == 0 || month != prev_month {
            push_month_block(st, out, day);
        }
        push_day_line(st, out, t, d);
        let next_day: i64 = day + 86400;
        assert(in_calendar(next_day as int));
        if d + 1 >= days || calendar_month(next_day) != month {
            out.append(GRID_INDENT);
            st.push_styled(out, GRID_FOOTER, Some(GRID_COLOR), None, false);
            out.append("\n");
        }
        assert(out@ =~= before + day_block(*st, *t, d as int));
        prev_month = month;
        d = d + 1;
    }
}

/// The summary: the period shown, the total running time and the daily average.
#[verifier::opaque]
pub open spec fn summary_text(st: Styler, t: SlotTable) -> Seq<char> {
    "\n\n"@ + st.styled("Period:  "@, None, None, true) + date_text(day_at(t, 0), PERIOD_FORMAT@)
        + " – "@ + date_text(day_at(t, t.days - 1), PERIOD_FORMAT@) + " ("@ + st.styled(
        int_text(t.days as int),
        Some(TIME_COLOR),
        None,
        false,
    ) + st.styled(" days"@, Some(TIME_TEXT_COLOR), None, false) + ")\n"@ + "\n"@ + st.styled(
        "Total time running: "@,
        None,
        None,
        true,
    ) + delta_text(st, t.total as int / 1000) + "\n"@ + st.styled(
        "Daily average:      "@,
        None,
        None,
        true,
    ) + delta_text(st, t.total as int / 1000 / t.days as int) + "\n"@ + "\n\n"@
}

/// Appends the summary: the period shown, the total running time and the daily average.
pub fn push_summary(st: &Styler, out: &mut String, t: &SlotTable)
    requires
        renderable(*t),
    ensures
        final(out)@ == old(out)@ + summary_text(*st, *t),
{
    reveal(summary_text);
    out.append("\n\n");
    st.push_styled(out, "Period:  ", None, None, true);
    let first_day: i64 = t.first_day / 1000;
    assert(in_calendar(first_day as int));
    push_date(out, first_day, PERIOD_FORMAT);
    out.append(" – ");
    let last_day: i64 = first_day + 86400 * (t.days as i64 - 1);
    assert(in_calendar(last_day as int));
    push_date(out, last_day, PERIOD_FORMAT);
    out.append(" (");
    let mut n = String::new();
    push_int(&mut n, t.days as i64);
    st.push_styled(out, n.as_str(), Some(TIME_COLOR), None, false);
    st.push_styled(out, " days", Some(TIME_TEXT_COLOR), None, false);
    out.append(")\n");
    out.append("\n");
    st.push_styled(out, "Total time running: ", None, None, true);
    let total_seconds: i64 = t.total / 1000;
    push_delta(st, out, total_seconds);
    out.append("\n");
    st.push_styled(out, "Daily average:      ", None, None, true);
    push_delta(st, out, total_seconds / t.days as i64);
    out.append("\n");
    out.append("\n\n");
    assert(final(out)@ =~= old(out)@ + summary_text(*st, *t));
}

/// Colour of line `line` (0 at the bottom) of the histogram, on a grid column or not.
pub open spec fn histogram_color(line: int, grid: bool) -> u8 {
    if grid {
        if line == 0 { 99 } else if line == 1 { 97 } else if line == 2 { 169 } else { 204 }
    } else {
        if line == 0 { 57 } else if line == 1 { 56 } else if line == 2 { 126 } else { 197 }
    }
}

fn histogram_color_of(line: u64, grid: bool) -> (c: u8)
    ensures
        c == histogram_color(line as int, grid),
{
    if grid {
        if line == 0 { 99 } else if line == 1 { 97 } else if line == 2 { 169 } else { 204 }
    } else {
        if line == 0 { 57 } else if line == 1 { 56 } else if line == 2 { 126 } else { 197 }
    }
}

/// The fill level (0 to 8) that line `line` of the histogram shows for a half hour whose
/// height, on a scale from 0 to 32, is `height`.
pub open spec fn histogram_level(height: int, line: int) -> int {
    let l = height - 8 * line;
    if l < 0 { 0 } else if l > 8 { 8 } else { l }
}

/// The first `j` cells of line `line` of the histogram.
#[verifier::opaque]
pub open spec fn histogram_cells(st: Styler, heights: Seq<i64>, line: int, j: int) -> Seq<char>
    decreases j,
{
    if j <= 0 {
        seq![]
    } else {
        histogram_cells(st, heights, line, j - 1) + st.styled(
            level_text(histogram_level(heights[j - 1] as int, line)),
            Some(histogram_color(line, (j - 1) % 12 == 0)),
            grid_background(j - 1),
            false,
        )
    }
}

/// Line `line` of the histogram, 0 being the bottom one.
#[verifier::opaque]
pub open spec fn histogram_line(st: Styler, heights: Seq<i64>, line: int) -> Seq<char> {
    (if line == 0 { "   min"@ } else { "      "@ }) + "  "@ + histogram_cells(st, heights, line, 48)
        + st.styled(" "@, None, Some(GRID_COLOR), false) + "\n"@
}

/// The histogram lines from the top one down to line `line`.
pub open spec fn histogram_lines_from(st: Styler, heights: Seq<i64>, line: int) -> Seq<char>
    decreases 4 - line,
{
    if line >= 4 {
        seq![]
    } else {
        histogram_lines_from(st, heights, line + 1) + histogram_line(st, heights, line)
    }
}

/// The histogram: how much the machine ran in each half hour of the day, as four lines of
/// bars, from `heights` (0 to 32 for each of the 48 half hours).
#[verifier::opaque]
pub open spec fn histogram_text(st: Styler, heights: Seq<i64>) -> Seq<char> {
    st.styled("Histogram:"@, None, None, true) + "\n\n"@ + time_header(st) + "\n"@ + "   max  "@
        + grid_header(st) + "\n"@ + histogram_lines_from(st, heights, 0) + GRID_INDENT@
        + grid_footer(st) + "\n\n"@
}

fn push_histogram_line(st: &Styler, out: &mut String, heights: &Vec<i64>, line: u64)
    requires
        heights@.len() == 48,
        line < 4,
    ensures
        final(out)@ == old(out)@ + histogram_line(*st, heights@, line as int),
{
    reveal(histogram_line);
    if line == 0 {
        out.append("   min");
    } else {
        out.append("      ");
    }
    out.append("  ");
    let ghost before = out@;
    assert(histogram_cells(*st, heights@, line as int, 0) =~= Seq::<char>::empty()) by {
        reveal(histogram_cells);
    }
    let mut j: usize = 0;
    while j < 48
        invariant
            heights@.len() == 48,
            line < 4,
            j <= 48,
            out@ == before + histogram_cells(*st, heights@, line as int, j as int),
        decreases 48 - j,
    {
        let l: i128 = heights[j] as i128 - 8 * line as i128;
        let level: u64 = if l < 0 { 0 } else if l > 8 { 8 } else { l as u64 };
        let grid = j % 12 == 0;
        st.push_styled(
            out,
            level_char(level),
            Some(histogram_color_of(line, grid)),
            if grid { Some(GRID_COLOR) } else { None },
            false,
        );
        proof {
            reveal_with_fuel(histogram_cells, 2);
            assert(out@ =~= before + histogram_cells(*st, heights@, line as int, j + 1));
        }
        j = j + 1;
    }
    st.push_styled(out, " ", None, Some(GRID_COLOR), false);
    out.append("\n");
    assert(final(out)@ =~= old(out)@ + histogram_line(*st, heights@, line as int));
}

/// Appends the histogram drawn from `heights` (0 to 32 for each of the 48 half hours).
pub fn push_histogram(st: &Styler, out: &mut String, heights: &Vec<i64>)
    requires
        heights@.len() == 48,
    ensures
        final(out)@ == old(out)@ + histogram_text(*st, heights@),
{
    reveal(histogram_text);
    st.push_styled(out, "Histogram:", None, None, true);
    out.append("\n\n");
    push_time_header(st, out);
    out.append("\n");
    out.append("   max  ");
    st.push_styled(out, GRID_HEADER, Some(GRID_COLOR), None, false);
    out.append("\n");
    let ghost before = out@;
    let mut line: u64 = 4;
    while line > 0
        invariant
            heights@.len() == 48,
            line <= 4,
            out@ == before + histogram_lines_from(*st, heights@, line as int),
        decreases line,
    {
        line = line - 1;
        push_histogram_line(st, out, heights, line);
    }
    out.append(GRID_INDENT);
    st.push_styled(out, GRID_FOOTER, Some(GRID_COLOR), None, false);
    out.append("\n\n");
    assert(final(out)@ =~= old(out)@ + histogram_text(*st, heights@));
}

/// The whole report: the ordinary colour, the calendar, the summary, the histogram, and the
/// sequence that ends all styling.
pub open spec fn report_text(st: Styler, t: SlotTable, heights: Seq<i64>) -> Seq<char> {
    st.escape_text(Some(FOREGROUND_COLOR), None, false) + calendar_text(st, t, t.days as int)
        + summary_text(st, t) + histogram_text(st, heights) + st.reset_text()
}

/// Renders the whole report for a slot table; `heights` gives the histogram's bar heights
/// (0 to 32 for each of the 48 half hours of the day).
pub fn render_report(st: &Styler, t: &SlotTable, heights: &Vec<i64>) -> (report: String)
    requires
        renderable(*t),
        heights@.len() == 48,
    ensures
        report@ == report_text(*st, *t, heights@),
{
    let mut out = String::new();
    st.push_escape(&mut out, Some(FOREGROUND_COLOR), None, false);
    push_calendar(st, &mut out, t);
    push_summary(st, &mut out, t);
    push_histogram(st, &mut out, heights);
    out.append(st.get_reset_sequence());
    assert(out@ =~= report_text(*st, *t, heights@));
    out
}


/// Why no report can be made from a set of boot records.
#[derive(Clone, Copy, Debug, PartialEq, Eq, Structural)]
pub enum ReportError {
    /// The regular-expression engine rejected one of the record patterns.
    PatternRejected,
    /// A record ends beyond what a date-time can hold.
    TimeOverflow,
    /// No line is a readable boot record.
    NoRecords,
    /// The day after the last one shown lies beyond the calendar.
    BeyondCalendar,
    /// The half hours of the days shown are too many to count in memory.
    TooManyDays,
}

/// The spans that a report on `lines` shows, in milliseconds, `now` being the current instant:
/// the boot records read, with overlapping ones merged.
pub open spec fn report_spans(lines: Seq<Seq<char>>, now: i64) -> Result<Seq<Span>, ReportError> {
    if !(regex_compiles(BOOT_LINE_PATTERN@) && regex_compiles(SHUTDOWN_PATTERN@) && regex_compiles(
        UPTIME_PATTERN@,
    )) {
        Err(ReportError::PatternRejected)
    } else {
        match boot_spans(lines, now) {
            Err(_) => Err(ReportError::TimeOverflow),
            Ok(p) => if p.len() == 0 {
                Err(ReportError::NoRecords)
            } else {
                let m = merged_spans(p, 0);
                if end_midnight(m) > MAX_INSTANT {
                    Err(ReportError::BeyondCalendar)
                } else if 48 * day_count(m) > usize::MAX {
                    Err(ReportError::TooManyDays)
                } else {
                    Ok(m)
                }
            },
        }
    }
}

/// Reads the boot records among `lines` and merges those that overlap, ready to be laid over
/// half hours; `now` is the current instant, in milliseconds, the end of a system still running.
pub fn spans_for_report(lines: &Vec<String>, now: i64) -> (r: Result<Vec<Span>, ReportError>)
    requires
        instant_in_calendar(now as int),
    ensures
        match r {
            Ok(v) => report_spans(lines_text(lines@), now) == Ok::<Seq<Span>, ReportError>(v@),
            Err(e) => report_spans(lines_text(lines@), now) == Err::<Seq<Span>, ReportError>(e),
        },
        r matches Ok(v) ==> slot_input(v@),
{
    let patterns = match LinePatterns::new() {
        Some(p) => p,
        None => return Err(ReportError::PatternRejected),
    };
    let parsed = match parse_lines(lines, &patterns, now) {
        Ok(v) => v,
        Err(_) => return Err(ReportError::TimeOverflow),
    };
    if parsed.len() == 0 {
        return Err(ReportError::NoRecords);
    }
    let ghost p = parsed@;
    let merged = merge_spans(parsed, 0);
    proof {
        lemma_merged_spans(p, 0);
    }
    let n = merged.len();
    assert(merged@[n - 1].wf_ms());
    assert(merged@[0].wf_ms());
    let last_midnight = midnight_of(merged[n - 1].to);
    if last_midnight > MAX_INSTANT - MS_PER_DAY {
        return Err(ReportError::BeyondCalendar);
    }
    let first_midnight = midnight_of(merged[0].from);
    let days: i128 = (last_midnight as i128 + 86400000 - first_midnight as i128) / 86400000;
    if days * 48 > usize::MAX as i128 {
        return Err(ReportError::TooManyDays);
    }
    Ok(merged)
}

/// Law: a report shows exactly the instants that the readable boot records cover: an instant
/// lies within a span shown exactly when it lies within some record read; the spans shown are
/// ordered, each ending before the next starts, and each record lies wholly within one of them.
pub proof fn lemma_report_covers_the_records(lines: Seq<Seq<char>>, now: i64, m: Seq<Span>)
    requires
        report_spans(lines, now) == Ok::<Seq<Span>, ReportError>(m),
    ensures
        boot_spans(lines, now) matches Ok(p) && {
            &&& forall|t: int| covered(m, t) <==> covered(p, t)
            &&& is_chain(m)
            &&& forall|i: int| 0 <= i < p.len() ==> held_by(m, #[trigger] p[i])
        },
{
    crate::lastlog::lemma_boot_spans_proper(lines, now);
    if let Ok(p) = boot_spans(lines, now) {
        lemma_merged_spans(p, 0);
    }
}

/// The first `j` bars of a day depend only on that day's half hours.
proof fn lemma_day_bars_own_slots(
    st: Styler,
    weekend: bool,
    v: Seq<i64>,
    w: Seq<i64>,
    base: int,
    j: int,
)
    requires
        forall|k: int| base <= k < base + j ==> #[trigger] v[k] == w[k],
    ensures
        day_bars(st, weekend, v, base, j) == day_bars(st, weekend, w, base, j),
    decreases j,
{
    reveal(day_bars);
    if j > 0 {
        lemma_day_bars_own_slots(st, weekend, v, w, base, j - 1);
        assert(v[base + j - 1] == w[base + j - 1]);
    }
}

/// Law: the line of a day depends on that day's own half hours alone: two tables that start on
/// the same day and agree on the 48 half hours of day `d` give day `d` the same line, bars and
/// running time alike, whatever the other days hold.
pub proof fn lemma_day_line_own_slots(st: Styler, t1: SlotTable, t2: SlotTable, d: int)
    requires
        0 <= d,
        t1.first_day == t2.first_day,
        48 * d + 48 <= t1.slot_ms@.len(),
        48 * d + 48 <= t2.slot_ms@.len(),
        forall|k: int| 48 * d <= k < 48 * d + 48 ==> #[trigger] t1.slot_ms@[k] == t2.slot_ms@[k],
    ensures
        day_line(st, t1, d) == day_line(st, t2, d),
{
    reveal(day_line);
    let v = t1.slot_ms@;
    let w = t2.slot_ms@;
    lemma_day_bars_own_slots(st, is_weekend(weekday_from_monday(day_at(t1, d))), v, w, 48 * d, 48);
    crate::slots::lemma_sum_prefix_stable(v, w, 48 * d, 48 * d + 48);
}

/// The block character for a fill level from 0 (empty) to 8 (full).
pub open spec fn level_symbol(level: int) -> char {
    if level <= 0 {
        ' '
    } else if level == 1 {
        '▁'
    } else if level == 2 {
        '▂'
    } else if level == 3 {
        '▃'
    } else if level == 4 {
        '▄'
    } else if level == 5 {
        '▅'
    } else if level == 6 {
        '▆'
    } else if level == 7 {
        '▇'
    } else {
        '█'
    }
}

proof fn lemma_level_text_is_one_symbol(level: int)
    ensures
        level_text(level) == seq![level_symbol(level)],
{
    reveal_strlit(" ");
    reveal_strlit("▁");
    reveal_strlit("▂");
    reveal_strlit("▃");
    reveal_strlit("▄");
    reveal_strlit("▅");
    reveal_strlit("▆");
    reveal_strlit("▇");
    reveal_strlit("█");
}

/// Without escape sequences, styled text is the text itself.
proof fn lemma_plain_styled(st: Styler, text: Seq<char>, fg: Option<u8>, bg: Option<u8>, bold: bool)
    requires
        !st.use_escape_sequences,
    ensures
        st.styled(text, fg, bg, bold) == text,
{
    reveal(Styler::styled);
    reveal(Styler::escape_text);
    assert(Seq::<char>::empty() + text + Seq::<char>::empty() =~= text);
}

/// Band `band` of the histogram as plain text, `band` 0 being the bottom one: the `min` label on
/// band 0 alone, then for each half hour `j` the block showing how far its height reaches into
/// the band (`heights[j] - 8 * band`, kept between 0 and 8), then the grid's end.
pub open spec fn histogram_band_plain(heights: Seq<i64>, band: int) -> Seq<char> {
    (if band == 0 { "   min"@ } else { "      "@ }) + "  "@ + Seq::new(
        48,
        |j: int|
            level_symbol(
                if heights[j] - 8 * band < 0 {
                    0
                } else if heights[j] - 8 * band > 8 {
                    8
                } else {
                    heights[j] - 8 * band
                },
            ),
    ) + " \n"@
}

proof fn lemma_plain_cells(st: Styler, heights: Seq<i64>, band: int, j: int)
    requires
        !st.use_escape_sequences,
        0 <= j <= 48,
    ensures
        histogram_cells(st, heights, band, j) == histogram_band_plain(heights, band).subrange(8, 8 + j),
    decreases j,
{
    reveal(histogram_cells);
    reveal_strlit("   min");
    reveal_strlit("      ");
    reveal_strlit("  ");
    reveal_strlit(" \n");
    let b = histogram_band_plain(heights, band);
    if j > 0 {
        lemma_plain_cells(st, heights, band, j - 1);
        let l = histogram_level(heights[j - 1] as int, band);
        lemma_level_text_is_one_symbol(l);
        lemma_plain_styled(st, level_text(l), Some(histogram_color(band, (j - 1) % 12 == 0)), grid_background(j - 1), false);
        assert(b[8 + j - 1] == level_symbol(l));
        assert(b.subrange(8, 8 + j) =~= b.subrange(8, 8 + j - 1) + seq![level_symbol(l)]);
    } else {
        assert(b.subrange(8, 8) =~= Seq::<char>::empty());
    }
}

/// Law: without escape sequences, the histogram is its heading, the hours and the `max` grid
/// line, then its four bands from the top one down to the `min` one at the bottom, each half hour
/// showing how far its height reaches into that band, then the grid's end.
pub proof fn lemma_histogram_bands_top_down(st: Styler, heights: Seq<i64>)
    requires
        !st.use_escape_sequences,
        heights.len() == 48,
    ensures
        histogram_text(st, heights) == "Histogram:"@ + "\n\n"@ + time_header(st) + "\n"@ + "   max  "@
            + GRID_HEADER@ + "\n"@ + histogram_band_plain(heights, 3) + histogram_band_plain(
            heights,
            2,
        ) + histogram_band_plain(heights, 1) + histogram_band_plain(heights, 0) + GRID_INDENT@
            + GRID_FOOTER@ + "\n\n"@,
{
    reveal(histogram_text);
    reveal(histogram_line);
    reveal_strlit("   min");
    reveal_strlit("      ");
    reveal_strlit("  ");
    reveal_strlit(" \n");
    reveal_strlit(" ");
    reveal_strlit("\n");
    lemma_plain_styled(st, "Histogram:"@, None, None, true);
    lemma_plain_styled(st, GRID_HEADER@, Some(GRID_COLOR), None, false);
    lemma_plain_styled(st, GRID_FOOTER@, Some(GRID_COLOR), None, false);
    lemma_plain_styled(st, " "@, None, Some(GRID_COLOR), false);
    assert forall|band: int| 0 <= band < 4 implies #[trigger] histogram_line(st, heights, band)
        == histogram_band_plain(heights, band) by {
        lemma_plain_cells(st, heights, band, 48);
        let b = histogram_band_plain(heights, band);
        assert(b.len() == 58);
        assert(histogram_line(st, heights, band) =~= b);
    }
    assert(histogram_lines_from(st, heights, 4) == Seq::<char>::empty());
    assert(histogram_lines_from(st, heights, 0) =~= histogram_band_plain(heights, 3)
        + histogram_band_plain(heights, 2) + histogram_band_plain(heights, 1)
        + histogram_band_plain(heights, 0)) by {
        reveal_with_fuel(histogram_lines_from, 5);
        assert(histogram_line(st, heights, 0) == histogram_band_plain(heights, 0));
        assert(histogram_line(st, heights, 1) == histogram_band_plain(heights, 1));
        assert(histogram_line(st, heights, 2) == histogram_band_plain(heights, 2));
        assert(histogram_line(st, heights, 3) == histogram_band_plain(heights, 3));
    }
}

/// Law: the bar level of a half hour with `ms` milliseconds of running time is seven times the
/// share of the half hour it ran, rounded to the nearest whole number (halves up): it lies within
/// half a level of that share, from 0 for no running to 7 for a full half hour.
pub proof fn lemma_bar_level_nearest(ms: int)
    requires
        0 <= ms <= 1800000,
    ensures
        0 <= bar_level(ms) <= 7,
        (2 * bar_level(ms) - 1) * 1800000 <= 14 * ms,
        14 * ms < (2 * bar_level(ms) + 1) * 1800000,
        ms == 0 ==> bar_level(ms) == 0,
        ms == 1800000 ==> bar_level(ms) == 7,
{
}

/// The first `j` bars of a day, as plain text: one block per half hour at its bar level.
proof fn lemma_plain_day_bars(st: Styler, weekend: bool, v: Seq<i64>, base: int, j: int)
    requires
        !st.use_escape_sequences,
        0 <= j,
    ensures
        day_bars(st, weekend, v, base, j) == Seq::new(
            j as nat,
            |k: int| level_symbol(bar_level(v[base + k] as int)),
        ),
    decreases j,
{
    reveal(day_bars);
    if j > 0 {
        lemma_plain_day_bars(st, weekend, v, base, j - 1);
        let l = bar_level(v[base + j - 1] as int);
        lemma_level_text_is_one_symbol(l);
        lemma_plain_styled(st, level_text(l), Some(bar_color(weekend, j - 1)), grid_background(j - 1), false);
        assert(day_bars(st, weekend, v, base, j) =~= Seq::new(
            j as nat,
            |k: int| level_symbol(bar_level(v[base + k] as int)),
        ));
    } else {
        assert(day_bars(st, weekend, v, base, j) =~= Seq::new(
            j as nat,
            |k: int| level_symbol(bar_level(v[base + k] as int)),
        ));
    }
}

/// Law: without escape sequences, the line of day `d` is its name and number, one block per half
/// hour of that day at the half hour's bar level, and the day's own running time.
pub proof fn lemma_day_line_plain(st: Styler, t: SlotTable, d: int)
    requires
        !st.use_escape_sequences,
    ensures
        day_line(st, t, d) == day_name_text(day_at(t, d)) + "  "@ + Seq::new(
            48,
            |j: int| level_symbol(bar_level(t.slot_ms@[48 * d + j] as int)),
        ) + "  "@ + delta_short_text(st, sum(t.slot_ms@, 48 * d, 48 * d + 48) / 1000) + "\n"@,
{
    reveal(day_line);
    reveal_strlit("  ");
    reveal_strlit(" ");
    let day = day_at(t, d);
    let w = weekday_from_monday(day);
    lemma_plain_styled(
        st,
        day_name_text(day),
        Some(if is_weekend(w) { WEEKEND_COLOR } else { WEEKDAY_COLOR }),
        None,
        w == 6,
    );
    lemma_plain_styled(st, " "@, None, Some(GRID_COLOR), false);
    lemma_plain_day_bars(st, is_weekend(w), t.slot_ms@, 48 * d, 48);
    assert(day_line(st, t, d) =~= day_name_text(day_at(t, d)) + "  "@ + Seq::new(
        48,
        |j: int| level_symbol(bar_level(t.slot_ms@[48 * d + j] as int)),
    ) + "  "@ + delta_short_text(st, sum(t.slot_ms@, 48 * d, 48 * d + 48) / 1000) + "\n"@);
}

/// Law: without escape sequences, the summary gives the first and the last day shown, the number
/// of days, the total running time in whole seconds `total` (`1000 total <= t.total <
/// 1000 total + 1000`) and the daily average in whole seconds `average`, the total shared out
/// evenly over the days and rounded down (`average * days <= total < (average + 1) * days`).
pub proof fn lemma_summary_plain(st: Styler, t: SlotTable, total: int, average: int)
    requires
        !st.use_escape_sequences,
        t.days >= 1,
        t.total >= 0,
        1000 * total <= t.total < 1000 * total + 1000,
        average * t.days <= total < (average + 1) * t.days,
    ensures
        summary_text(st, t) == "\n\nPeriod:  "@ + date_text(t.first_day / 1000, PERIOD_FORMAT@)
            + " – "@ + date_text(t.first_day / 1000 + 86400 * (t.days - 1), PERIOD_FORMAT@) + " ("@
            + int_text(t.days as int) + " days)\n\nTotal time running: "@ + delta_text(st, total)
            + "\nDaily average:      "@ + delta_text(st, average) + "\n\n\n"@,
{
    reveal(summary_text);
    reveal(Styler::styled);
    reveal(Styler::escape_text);
    reveal_strlit("\n\n");
    reveal_strlit("Period:  ");
    reveal_strlit("\n\nPeriod:  ");
    reveal_strlit(" (");
    reveal_strlit(" days");
    reveal_strlit(")\n");
    reveal_strlit("\n");
    reveal_strlit(" days)\n\nTotal time running: ");
    reveal_strlit("Total time running: ");
    reveal_strlit("Daily average:      ");
    reveal_strlit("\nDaily average:      ");
    reveal_strlit("\n\n\n");
    assert(t.total as int / 1000 == total);
    let days = t.days as int;
    vstd::arithmetic::div_mod::lemma_fundamental_div_mod(total, days);
    vstd::arithmetic::div_mod::lemma_mod_pos_bound(total, days);
    let q = total / days;
    let r = total % days;
    assert(q == average) by (nonlinear_arith)
        requires
            average * days <= total < (average + 1) * days,
            total == days * q + r,
            0 <= r < days,
            days >= 1,
    {
    }
    assert(summary_text(st, t) =~= "\n\nPeriod:  "@ + date_text(t.first_day / 1000, PERIOD_FORMAT@)
        + " – "@ + date_text(t.first_day / 1000 + 86400 * (t.days - 1), PERIOD_FORMAT@) + " ("@
        + int_text(t.days as int) + " days)\n\nTotal time running: "@ + delta_text(st, total)
        + "\nDaily average:      "@ + delta_text(st, average) + "\n\n\n"@);
}

} // verus!
