//! How long the machine ran in each half hour of the days that the spans touch, in
//! milliseconds.
use vstd::prelude::*;
use crate::clock::{day_start, instant_in_calendar, MAX_INSTANT, MS_PER_DAY, MS_PER_SLOT};
use crate::span::{all_wf_ms, is_chain, Span};

verus! {

/// Half hours in a day.
pub const SLOTS_PER_DAY: usize = 48;

/// Milliseconds of `s` that fall between `a` and `b`.
pub open spec fn clipped(a: int, b: int, s: Span) -> int {
    let start = if a >= s.from { a } else { s.from as int };
    let end = if b <= s.to { b } else { s.to as int };
    if start >= end { 0 } else { end - start }
}

/// Milliseconds between `a` and `b` that the spans `s[lo..hi]` cover, added up span by span.
pub open spec fn running_between(s: Seq<Span>, lo: int, hi: int, a: int, b: int) -> int
    decreases hi - lo,
{
    if hi <= lo {
        0
    } else {
        clipped(a, b, s[lo]) + running_between(s, lo + 1, hi, a, b)
    }
}

/// Milliseconds between `a` and `b` that the spans of `s` cover.
pub open spec fn running(s: Seq<Span>, a: int, b: int) -> int {
    running_between(s, 0, s.len() as int, a, b)
}

/// Midnight at the start of the first day that the chain `s` touches.
pub open spec fn first_midnight(s: Seq<Span>) -> int {
    day_start(s[0].from as int)
}

/// Midnight at the end of the last day that the chain `s` touches.
pub open spec fn end_midnight(s: Seq<Span>) -> int {
    day_start(s.last().to as int) + MS_PER_DAY
}

/// Number of days that the chain `s` touches.
pub open spec fn day_count(s: Seq<Span>) -> int {
    (end_midnight(s) - first_midnight(s)) / (MS_PER_DAY as int)
}

/// Start of half hour `k`, counted from the first midnight of `s`.
pub open spec fn slot_start(s: Seq<Span>, k: int) -> int {
    first_midnight(s) + k * MS_PER_SLOT
}

/// Spans that `compute_slots` can lay over half hours: a non-empty chain within the calendar,
/// whose last day is followed by a day that the calendar can still hold, and whose half hours
/// can all be counted in memory.
pub open spec fn slot_input(s: Seq<Span>) -> bool {
    &&& s.len() > 0
    &&& all_wf_ms(s)
    &&& is_chain(s)
    &&& end_midnight(s) <= MAX_INSTANT
    &&& 48 * day_count(s) <= usize::MAX
}

/// Sum of `v[lo..hi]`.
pub open spec fn sum(v: Seq<i64>, lo: int, hi: int) -> int
    decreases hi - lo,
{
    if hi <= lo {
        0
    } else {
        v[lo] + sum(v, lo + 1, hi)
    }
}

/// Sum of the half hours `j` of every day: `v[j] + v[j + 48] + ...` over `days` days.
pub open spec fn sum_of_half_hour(v: Seq<i64>, j: int, days: int) -> int
    decreases days,
{
    if days <= 0 {
        0
    } else {
        sum_of_half_hour(v, j, days - 1) + v[(days - 1) * 48 + j]
    }
}

/// A slot table that the report can show: at least one day, starting at a midnight, all within
/// the calendar, each
/// half hour holding between 0 and 1800000 milliseconds.
pub open spec fn renderable(t: SlotTable) -> bool {
    &&& t.days >= 1
    &&& t.slot_ms@.len() == 48 * t.days
    &&& forall|k: int| 0 <= k < t.slot_ms@.len() ==> 0 <= #[trigger] t.slot_ms@[k] <= 1800000
    &&& instant_in_calendar(t.first_day as int)
    &&& t.first_day % 86400000 == 0
    &&& t.first_day + 86400000 * t.days <= MAX_INSTANT
    &&& t.total >= 0
}

/// The running time of each half hour of the days that a chain of spans touches.
pub struct SlotTable {
    /// Midnight at the start of the first day.
    pub first_day: i64,
    /// Number of days, at least one.
    pub days: usize,
    /// Milliseconds of running time in each half hour, day after day: half hour `j` of day `d`
    /// is entry `48 * d + j`.
    pub slot_ms: Vec<i64>,
    /// Milliseconds of running time in each half hour of the day (0:00, 0:30, ...), over all days.
    pub by_time_of_day: Vec<i64>,
    /// Milliseconds of running time over all days.
    pub total: i64,
}

/// What `compute_slots` returns for the chain `s`.
pub open spec fn slot_table_of(s: Seq<Span>, t: SlotTable) -> bool {
    &&& t.first_day == first_midnight(s)
    &&& t.days == day_count(s)
    &&& t.slot_ms@.len() == 48 * t.days
    &&& forall|k: int| 0 <= k < t.slot_ms@.len() ==> #[trigger] t.slot_ms@[k]
        == running(s, slot_start(s, k), slot_start(s, k + 1))
    &&& t.by_time_of_day@.len() == 48
    &&& forall|j: int| 0 <= j < 48 ==> #[trigger] t.by_time_of_day@[j] == sum_of_half_hour(
        t.slot_ms@,
        j,
        t.days as int,
    )
    &&& t.total == sum(t.slot_ms@, 0, t.slot_ms@.len() as int)
}

/// A chain of spans never covers more of `[a, b]` than its length, counted from where the
/// first span of the chain starts.
proof fn lemma_running_bound(s: Seq<Span>, lo: int, hi: int, a: int, b: int)
    requires
        is_chain(s),
        0 <= lo <= hi <= s.len(),
    ensures
        0 <= running_between(s, lo, hi, a, b),
        lo < hi ==> running_between(s, lo, hi, a, b) <= (if b - (if a >= s[lo].from { a } else {
            s[lo].from as int
        }) > 0 {
            b - (if a >= s[lo].from { a } else { s[lo].from as int })
        } else {
            0
        }),
    decreases hi - lo,
{
    if lo < hi {
        lemma_running_bound(s, lo + 1, hi, a, b);
        assert(s[lo].is_proper());
        if lo + 1 < hi {
            assert(s[lo].to < s[lo + 1].from);
        }
    }
}

/// Spans that end before `a` or start after `b` add nothing between `a` and `b`.
proof fn lemma_running_outside(s: Seq<Span>, lo: int, mid: int, hi: int, a: int, b: int)
    requires
        0 <= lo <= mid <= hi <= s.len(),
        forall|k: int| 0 <= k < lo ==> s[k].to <= a,
        forall|k: int| hi <= k < s.len() ==> s[k].from >= b,
    ensures
        running_between(s, 0, s.len() as int, a, b) == running_between(s, lo, hi, a, b),
{
    lemma_running_zero(s, 0, lo, a, b);
    lemma_running_split(s, 0, lo, s.len() as int, a, b);
    lemma_running_zero(s, hi, s.len() as int, a, b);
    lemma_running_split(s, lo, hi, s.len() as int, a, b);
}

proof fn lemma_running_zero(s: Seq<Span>, lo: int, hi: int, a: int, b: int)
    requires
        0 <= lo <= hi <= s.len(),
        forall|k: int| lo <= k < hi ==> s[k].to <= a || s[k].from >= b,
    ensures
        running_between(s, lo, hi, a, b) == 0,
    decreases hi - lo,
{
    if lo < hi {
        lemma_running_zero(s, lo + 1, hi, a, b);
    }
}

proof fn lemma_running_split(s: Seq<Span>, lo: int, mid: int, hi: int, a: int, b: int)
    requires
        lo <= mid <= hi,
    ensures
        running_between(s, lo, hi, a, b) == running_between(s, lo, mid, a, b) + running_between(
            s,
            mid,
            hi,
            a,
            b,
        ),
    decreases mid - lo,
{
    if lo < mid {
        lemma_running_split(s, lo + 1, mid, hi, a, b);
    }
}

pub proof fn lemma_sum_push(v: Seq<i64>, lo: int, hi: int)
    requires
        0 <= lo <= hi < v.len(),
    ensures
        sum(v, lo, hi + 1) == sum(v, lo, hi) + v[hi],
    decreases hi - lo,
{
    if lo < hi {
        lemma_sum_push(v, lo + 1, hi);
    } else {
        assert(sum(v, hi + 1, hi + 1) == 0);
    }
}

pub proof fn lemma_sum_prefix_stable(v: Seq<i64>, w: Seq<i64>, lo: int, hi: int)
    requires
        0 <= lo <= hi <= v.len(),
        hi <= w.len(),
        forall|k: int| lo <= k < hi ==> v[k] == w[k],
    ensures
        sum(v, lo, hi) == sum(w, lo, hi),
    decreases hi - lo,
{
    if lo < hi {
        lemma_sum_prefix_stable(v, w, lo + 1, hi);
    }
}

proof fn lemma_half_hour_stable(v: Seq<i64>, w: Seq<i64>, j: int, days: int)
    requires
        0 <= j < 48,
        0 <= days,
        days * 48 <= v.len(),
        days * 48 <= w.len(),
        forall|k: int| 0 <= k < days * 48 ==> v[k] == w[k],
    ensures
        sum_of_half_hour(v, j, days) == sum_of_half_hour(w, j, days),
    decreases days,
{
    if days > 0 {
        lemma_half_hour_stable(v, w, j, days - 1);
        assert((days - 1) * 48 + j < days * 48) by (nonlinear_arith)
            requires
                0 <= j < 48,
        ;
    }
}

/// The start of a day is a whole number of days from 1970-01-01, and it grows with `t`.
proof fn lemma_day_start(t: int, u: int)
    requires
        t <= u,
    ensures
        day_start(t) == 86400000 * (t / 86400000),
        day_start(t) <= t < day_start(t) + 86400000,
        day_start(t) <= day_start(u),
{
    vstd::arithmetic::div_mod::lemma_fundamental_div_mod(t, 86400000);
    vstd::arithmetic::div_mod::lemma_fundamental_div_mod(u, 86400000);
    vstd::arithmetic::div_mod::lemma_div_is_ordered(t, u, 86400000);
}

/// Midnight at the start of the day of the instant `t` (in milliseconds), within the calendar.
pub fn midnight_of(t: i64) -> (m: i64)
    requires
        instant_in_calendar(t as int),
    ensures
        m == day_start(t as int),
        instant_in_calendar(m as int),
{
    let offset: u64 = (t as i128 - crate::clock::MIN_INSTANT as i128) as u64;
    proof {
        vstd::arithmetic::div_mod::lemma_mod_multiples_vanish(96465292, t as int, 86400000);
        assert(offset as int == 86400000 * 96465292 + t);
    }
    let into_day: u64 = offset % 86400000;
    t - into_day as i64
}

/// In a chain, the first span starts no later than the last one ends.
proof fn lemma_chain_ends(s: Seq<Span>)
    requires
        is_chain(s),
        s.len() > 0,
    ensures
        s[0].from <= s.last().to,
{
    assert(s[0].is_proper());
    assert(s.last().is_proper());
    if s.len() > 1 {
        assert(s[0].to < s[s.len() - 1].from);
    }
}

/// In a chain, a span starting at `b` or later is followed only by such spans.
proof fn lemma_chain_starts_grow(s: Seq<Span>, i: int, b: int)
    requires
        is_chain(s),
        0 <= i < s.len(),
        s[i].from >= b,
    ensures
        forall|k: int| i <= k < s.len() ==> s[k].from >= b,
{
    assert forall|k: int| i <= k < s.len() implies s[k].from >= b by {
        if k > i {
            assert(s[i].is_proper());
            assert(s[i].to < s[k].from);
        }
    }
}

/// Lays the chain `spans` over the half hours of the days it touches, and adds the running
/// time up per half hour of the day and in all.
pub fn compute_slots(spans: &Vec<Span>) -> (table: SlotTable)
    requires
        slot_input(spans@),
    ensures
        slot_table_of(spans@, table),
        renderable(table),
{
    let ghost s = spans@;
    let n = spans.len();
    proof {
        assert(s[0].wf_ms());
        assert(s[n - 1].wf_ms());
    }
    let first_day = midnight_of(spans[0].from);
    let last_midnight = midnight_of(spans[n - 1].to);
    proof {
        lemma_chain_ends(s);
        lemma_day_start(s[0].from as int, s.last().to as int);
        lemma_day_start(s.last().to as int, s.last().to as int);
        assert(s[0].wf_ms());
        assert(s.last().wf_ms());
    }
    let end_day = last_midnight + MS_PER_DAY;
    let days: u64 = ((end_day - first_day) / MS_PER_DAY) as u64;
    proof {
        let q1 = s[0].from as int / 86400000;
        let q2 = s.last().to as int / 86400000;
        assert(end_day - first_day == 86400000 * (q2 - q1 + 1)) by (nonlinear_arith)
            requires
                end_day == 86400000 * q2 + 86400000,
                first_day == 86400000 * q1,
        ;
        vstd::arithmetic::div_mod::lemma_div_multiples_vanish(q2 - q1 + 1, 86400000);
        vstd::arithmetic::div_mod::lemma_mod_multiples_basic(q1, 86400000);
        assert(first_day % 86400000 == 0);
        assert(days == q2 - q1 + 1);
        assert(days <= 200000000) by (nonlinear_arith)
            requires
                86400000 * days == end_day - first_day,
                end_day - first_day <= 16544868192000000,
        ;
    }
    let n_slots: usize = (days * 48) as usize;
    let mut slot_ms: Vec<i64> = Vec::new();
    let mut span_idx: usize = 0;
    let mut k: usize = 0;
    let mut current: i64 = first_day;
    while k < n_slots
        invariant
            n == s.len(),
            s == spans@,
            slot_input(s),
            first_day == first_midnight(s),
            instant_in_calendar(first_day as int),
            n_slots == 48 * days,
            days * 86400000 == end_day - first_day,
            end_day == end_midnight(s),
            k <= n_slots,
            current == first_day + k * 1800000,
            span_idx <= n,
            forall|j: int| 0 <= j < span_idx ==> s[j].to <= current,
            slot_ms@.len() == k,
            forall|q: int| 0 <= q < k ==> #[trigger] slot_ms@[q] == running(
                s,
                slot_start(s, q),
                slot_start(s, q + 1),
            ),
            forall|q: int| 0 <= q < k ==> 0 <= #[trigger] slot_ms@[q] <= 1800000,
        decreases n_slots - k,
    {
        proof {
            assert(k * 1800000 + 1800000 <= n_slots * 1800000) by (nonlinear_arith)
                requires
                    k < n_slots,
            ;
            assert(current + 1800000 <= end_day);
            assert(end_day <= MAX_INSTANT);
            assert(first_day >= crate::clock::MIN_INSTANT);
        }
        let slot_end = current + MS_PER_SLOT;
        while span_idx < n && spans[span_idx].to <= current
            invariant
                n == s.len(),
                s == spans@,
                span_idx <= n,
                forall|j: int| 0 <= j < span_idx ==> s[j].to <= current,
            decreases n - span_idx,
        {
            span_idx = span_idx + 1;
        }
        let slot = Span { from: current, to: slot_end };
        let mut in_slot: i64 = 0;
        let mut i: usize = span_idx;
        while i < n && spans[i].from < slot_end
            invariant
                n == s.len(),
                s == spans@,
                is_chain(s),
                all_wf_ms(s),
                span_idx <= i <= n,
                slot == (Span { from: current, to: slot_end }),
                slot.wf_ms(),
                slot_end == current + 1800000,
                in_slot == running_between(s, span_idx as int, i as int, current as int, slot_end as int),
                0 <= in_slot <= 1800000,
            decreases n - i,
        {
            proof {
                lemma_running_bound(s, span_idx as int, i + 1, current as int, slot_end as int);
                lemma_running_split(s, span_idx as int, i as int, i + 1, current as int, slot_end as int);
                assert(s[i as int].wf_ms());
                assert(running_between(s, i + 1, i + 1, current as int, slot_end as int) == 0);
            }
            let ov = crate::span::time_overlap(&slot, &spans[i]);
            assert(ov == clipped(current as int, slot_end as int, s[i as int]));
            in_slot = in_slot + ov;
            i = i + 1;
        }
        proof {
            if i < n {
                lemma_chain_starts_grow(s, i as int, slot_end as int);
            }
            lemma_running_outside(s, span_idx as int, span_idx as int, i as int, current as int, slot_end as int);
            assert(slot_start(s, k as int) == current);
            assert(slot_start(s, k + 1) == slot_end);
        }
        slot_ms.push(in_slot);
        k = k + 1;
        current = slot_end;
    }
    let mut total: i64 = 0;
    let mut q: usize = 0;
    while q < n_slots
        invariant
            slot_ms@.len() == n_slots,
            n_slots == 48 * days,
            days <= 200000000,
            q <= n_slots,
            forall|r: int| 0 <= r < n_slots ==> 0 <= #[trigger] slot_ms@[r] <= 1800000,
            total == sum(slot_ms@, 0, q as int),
            0 <= total <= 1800000 * q,
        decreases n_slots - q,
    {
        proof {
            lemma_sum_push(slot_ms@, 0, q as int);
        }
        total = total + slot_ms[q];
        q = q + 1;
    }
    let mut by_time_of_day: Vec<i64> = Vec::new();
    let mut j: usize = 0;
    while j < SLOTS_PER_DAY
        invariant
            slot_ms@.len() == n_slots,
            n_slots == 48 * days,
            days <= 200000000,
            j <= 48,
            forall|r: int| 0 <= r < n_slots ==> 0 <= #[trigger] slot_ms@[r] <= 1800000,
            by_time_of_day@.len() == j,
            forall|r: int| 0 <= r < j ==> #[trigger] by_time_of_day@[r] == sum_of_half_hour(
                slot_ms@,
                r,
                days as int,
            ),
        decreases 48 - j,
    {
        let mut acc: i64 = 0;
        let mut d: u64 = 0;
        while d < days
            invariant
                slot_ms@.len() == n_slots,
                n_slots == 48 * days,
                days <= 200000000,
                j < 48,
                d <= days,
                forall|r: int| 0 <= r < n_slots ==> 0 <= #[trigger] slot_ms@[r] <= 1800000,
                acc == sum_of_half_hour(slot_ms@, j as int, d as int),
                0 <= acc <= 1800000 * d,
            decreases days - d,
        {
            proof {
                assert(d * 48 + j < n_slots) by (nonlinear_arith)
                    requires
                        d < days,
                        j < 48,
                        n_slots == 48 * days,
                ;
            }
            let idx: usize = (d * 48) as usize + j;
            acc = acc + slot_ms[idx];
            d = d + 1;
        }
        by_time_of_day.push(acc);
        j = j + 1;
    }
    SlotTable { first_day, days: days as usize, slot_ms, by_time_of_day, total }
}


/// Total length of the spans `s[lo..hi]`.
pub open spec fn span_lengths(s: Seq<Span>, lo: int, hi: int) -> int
    decreases hi - lo,
{
    if hi <= lo {
        0
    } else {
        (s[lo].to - s[lo].from) + span_lengths(s, lo + 1, hi)
    }
}

proof fn lemma_clipped_additive(a: int, b: int, c: int, x: Span)
    requires
        a <= b <= c,
    ensures
        clipped(a, b, x) + clipped(b, c, x) == clipped(a, c, x),
{
}

proof fn lemma_running_additive(s: Seq<Span>, lo: int, hi: int, a: int, b: int, c: int)
    requires
        a <= b <= c,
    ensures
        running_between(s, lo, hi, a, b) + running_between(s, lo, hi, b, c) == running_between(
            s,
            lo,
            hi,
            a,
            c,
        ),
    decreases hi - lo,
{
    if lo < hi {
        lemma_clipped_additive(a, b, c, s[lo]);
        lemma_running_additive(s, lo + 1, hi, a, b, c);
    }
}

/// Spans lying wholly between `a` and `b` add their full lengths.
proof fn lemma_running_inside(s: Seq<Span>, lo: int, hi: int, a: int, b: int)
    requires
        0 <= lo <= hi <= s.len(),
        forall|k: int| lo <= k < hi ==> a <= s[k].from && s[k].to <= b && s[k].from <= s[k].to,
    ensures
        running_between(s, lo, hi, a, b) == span_lengths(s, lo, hi),
    decreases hi - lo,
{
    if lo < hi {
        lemma_running_inside(s, lo + 1, hi, a, b);
    }
}

proof fn lemma_running_empty(s: Seq<Span>, lo: int, hi: int, a: int)
    ensures
        running_between(s, lo, hi, a, a) == 0,
    decreases hi - lo,
{
    if lo < hi {
        lemma_running_empty(s, lo + 1, hi, a);
    }
}

proof fn lemma_slot_sum(s: Seq<Span>, v: Seq<i64>, lo: int, hi: int)
    requires
        0 <= lo <= hi <= v.len(),
        forall|k: int| 0 <= k < v.len() ==> #[trigger] v[k] == running(
            s,
            slot_start(s, k),
            slot_start(s, k + 1),
        ),
    ensures
        sum(v, lo, hi) == running(s, slot_start(s, lo), slot_start(s, hi)),
    decreases hi - lo,
{
    if lo < hi {
        lemma_slot_sum(s, v, lo + 1, hi);
        lemma_running_additive(
            s,
            0,
            s.len() as int,
            slot_start(s, lo),
            slot_start(s, lo + 1),
            slot_start(s, hi),
        );
    } else {
        lemma_running_empty(s, 0, s.len() as int, slot_start(s, lo));
    }
}

/// Law: the total running time of a slot table is the total length of the spans.
pub proof fn lemma_total_is_span_lengths(s: Seq<Span>, t: SlotTable)
    requires
        slot_input(s),
        slot_table_of(s, t),
    ensures
        t.total == span_lengths(s, 0, s.len() as int),
{
    let v = t.slot_ms@;
    lemma_slot_sum(s, v, 0, v.len() as int);
    lemma_chain_ends(s);
    lemma_day_start(s[0].from as int, s.last().to as int);
    lemma_day_start(s.last().to as int, s.last().to as int);
    let a = first_midnight(s);
    let b = end_midnight(s);
    assert(slot_start(s, v.len() as int) == b) by {
        lemma_day_start(s[0].from as int, s.last().to as int);
        vstd::arithmetic::div_mod::lemma_fundamental_div_mod(b - a, 86400000);
        assert((b - a) % 86400000 == 0) by {
            assert(b - a == 86400000 * (s.last().to as int / 86400000 - s[0].from as int / 86400000 + 1))
                by (nonlinear_arith)
                requires
                    b == 86400000 * (s.last().to as int / 86400000) + 86400000,
                    a == 86400000 * (s[0].from as int / 86400000),
            ;
            vstd::arithmetic::div_mod::lemma_mod_multiples_basic(
                s.last().to as int / 86400000 - s[0].from as int / 86400000 + 1,
                86400000,
            );
        }
        assert(v.len() == 48 * ((b - a) / 86400000));
        assert(a + v.len() * 1800000 == b) by (nonlinear_arith)
            requires
                v.len() == 48 * ((b - a) / 86400000),
                b - a == 86400000 * ((b - a) / 86400000) + (b - a) % 86400000,
                (b - a) % 86400000 == 0,
        ;
    }
    assert forall|k: int| 0 <= k < s.len() implies a <= s[k].from && s[k].to <= b
        && s[k].from <= s[k].to by {
        assert(s[k].is_proper());
        assert(s[0].is_proper());
        if k > 0 {
            assert(s[0].to < s[k].from);
        }
        if k < s.len() - 1 {
            assert(s[k].to < s[s.len() - 1].from);
            assert(s[s.len() - 1].is_proper());
        }
    }
    lemma_running_inside(s, 0, s.len() as int, a, b);
}

/// `v[lo..hi]` adds up as `v[lo..mid]` and `v[mid..hi]`.
proof fn lemma_sum_split(v: Seq<i64>, lo: int, mid: int, hi: int)
    requires
        lo <= mid <= hi,
    ensures
        sum(v, lo, hi) == sum(v, lo, mid) + sum(v, mid, hi),
    decreases mid - lo,
{
    if lo < mid {
        lemma_sum_split(v, lo + 1, mid, hi);
    }
}

/// The totals of the half hours `0..k` of the day, over `days` days.
pub open spec fn half_hour_totals(v: Seq<i64>, days: int, k: int) -> int
    decreases k,
{
    if k <= 0 {
        0
    } else {
        half_hour_totals(v, days, k - 1) + sum_of_half_hour(v, k - 1, days)
    }
}

proof fn lemma_half_hour_totals_none(v: Seq<i64>, k: int)
    ensures
        half_hour_totals(v, 0, k) == 0,
    decreases k,
{
    if k > 0 {
        lemma_half_hour_totals_none(v, k - 1);
    }
}

/// One day more adds that day's first `k` half hours.
proof fn lemma_half_hour_totals_step(v: Seq<i64>, days: int, k: int)
    requires
        0 <= days,
        0 <= k <= 48,
        48 * (days + 1) <= v.len(),
    ensures
        half_hour_totals(v, days + 1, k) == half_hour_totals(v, days, k) + sum(
            v,
            48 * days,
            48 * days + k,
        ),
    decreases k,
{
    if k > 0 {
        lemma_half_hour_totals_step(v, days, k - 1);
        lemma_sum_push(v, 48 * days, 48 * days + k - 1);
        assert((days + 1 - 1) * 48 + (k - 1) == 48 * days + k - 1);
    }
}

/// Over whole days, the half-hour totals add up to the sum of all half hours.
proof fn lemma_totals_of_days(v: Seq<i64>, days: int)
    requires
        0 <= days,
        48 * days <= v.len(),
    ensures
        half_hour_totals(v, days, 48) == sum(v, 0, 48 * days),
    decreases days,
{
    if days > 0 {
        lemma_totals_of_days(v, days - 1);
        lemma_half_hour_totals_step(v, days - 1, 48);
        lemma_sum_split(v, 0, 48 * (days - 1), 48 * days);
    } else {
        lemma_half_hour_totals_none(v, 48);
    }
}

/// A list holding the half-hour totals adds up to them.
proof fn lemma_sum_of_totals(w: Seq<i64>, v: Seq<i64>, days: int, k: int)
    requires
        0 <= k <= w.len(),
        forall|j: int| 0 <= j < k ==> #[trigger] w[j] == sum_of_half_hour(v, j, days),
    ensures
        sum(w, 0, k) == half_hour_totals(v, days, k),
    decreases k,
{
    if k > 0 {
        lemma_sum_of_totals(w, v, days, k - 1);
        lemma_sum_push(w, 0, k - 1);
    }
}

/// Law: the running times of the 48 half hours of the day, over all days, add up to the total
/// running time.
pub proof fn lemma_time_of_day_adds_up(s: Seq<Span>, t: SlotTable)
    requires
        slot_table_of(s, t),
    ensures
        sum(t.by_time_of_day@, 0, 48) == t.total,
{
    let v = t.slot_ms@;
    lemma_sum_of_totals(t.by_time_of_day@, v, t.days as int, 48);
    lemma_totals_of_days(v, t.days as int);
}

/// Spans that each lie outside `[a, b]` add nothing to it.
proof fn lemma_running_none(s: Seq<Span>, lo: int, hi: int, a: int, b: int)
    requires
        forall|j: int| lo <= j < hi ==> #[trigger] clipped(a, b, s[j]) == 0,
    ensures
        running_between(s, lo, hi, a, b) == 0,
    decreases hi - lo,
{
    if lo < hi {
        lemma_running_none(s, lo + 1, hi, a, b);
    }
}

/// When only span `i` reaches into `[a, b]`, it alone counts.
proof fn lemma_running_single(s: Seq<Span>, lo: int, hi: int, a: int, b: int, i: int)
    requires
        lo <= i < hi,
        forall|j: int| lo <= j < hi && j != i ==> #[trigger] clipped(a, b, s[j]) == 0,
    ensures
        running_between(s, lo, hi, a, b) == clipped(a, b, s[i]),
    decreases hi - lo,
{
    if lo < i {
        lemma_running_single(s, lo + 1, hi, a, b, i);
    } else {
        lemma_running_none(s, lo + 1, hi, a, b);
    }
}

/// Law: a half hour that no span reaches into shows no running time, and a half hour that some
/// span covers whole shows the full half hour, 1800000 milliseconds.
pub proof fn lemma_slot_extremes(s: Seq<Span>, t: SlotTable, k: int)
    requires
        slot_input(s),
        slot_table_of(s, t),
        0 <= k < t.slot_ms@.len(),
    ensures
        (forall|i: int| 0 <= i < s.len() ==> #[trigger] s[i].to <= slot_start(s, k) || s[i].from
            >= slot_start(s, k + 1)) ==> t.slot_ms@[k] == 0,
        (exists|i: int| 0 <= i < s.len() && #[trigger] s[i].from <= slot_start(s, k) && slot_start(
            s,
            k + 1,
        ) <= s[i].to) ==> t.slot_ms@[k] == 1800000,
{
    let a = slot_start(s, k);
    let b = slot_start(s, k + 1);
    assert(t.slot_ms@[k] == running(s, a, b));
    if forall|i: int| 0 <= i < s.len() ==> #[trigger] s[i].to <= a || s[i].from >= b {
        lemma_running_none(s, 0, s.len() as int, a, b);
    }
    if exists|i: int| 0 <= i < s.len() && #[trigger] s[i].from <= a && b <= s[i].to {
        let i = choose|i: int| 0 <= i < s.len() && #[trigger] s[i].from <= a && b <= s[i].to;
        assert forall|j: int| 0 <= j < s.len() && j != i implies #[trigger] clipped(a, b, s[j]) == 0 by {
            assert(s[i].is_proper());
            assert(s[j].is_proper());
            if j < i {
                assert(s[j].to < s[i].from);
            } else {
                assert(s[i].to < s[j].from);
            }
        }
        lemma_running_single(s, 0, s.len() as int, a, b, i);
    }
}

} // verus!
