//! Closed time spans, their stable ordering by start, and merging.
use vstd::prelude::*;
use crate::clock::{in_calendar, instant_in_calendar};

verus! {

/// A period during which the machine was running, from the instant `from` to the instant `to`,
/// both counted from 1970-01-01 00:00:00: in seconds for activity sessions, in milliseconds for
/// the boot records of a report.
#[derive(Clone, Copy, Debug, PartialEq, Eq, Structural)]
pub struct Span {
    pub from: i64,
    pub to: i64,
}

impl Span {
    /// Both ends are date-times, in seconds, that the calendar can hold.
    pub open spec fn wf(self) -> bool {
        in_calendar(self.from as int) && in_calendar(self.to as int)
    }

    /// Both ends are instants, in milliseconds, that the calendar can hold.
    pub open spec fn wf_ms(self) -> bool {
        instant_in_calendar(self.from as int) && instant_in_calendar(self.to as int)
    }

    /// The span does not end before it starts.
    pub open spec fn is_proper(self) -> bool {
        self.from <= self.to
    }

    /// The instant `t` lies within the span, both ends included.
    pub open spec fn covers(self, t: int) -> bool {
        self.from <= t <= self.to
    }

    /// All of `x` lies within the span.
    pub open spec fn holds(self, x: Span) -> bool {
        self.from <= x.from && x.to <= self.to
    }
}

/// Some span of `m` holds all of `x`.
pub open spec fn held_by(m: Seq<Span>, x: Span) -> bool {
    exists|k: int| 0 <= k < m.len() && #[trigger] m[k].holds(x)
}

/// Every span of `s` is well formed.
pub open spec fn all_wf(s: Seq<Span>) -> bool {
    forall|i: int| 0 <= i < s.len() ==> #[trigger] s[i].wf()
}

/// Every span of `s` is well formed, in milliseconds.
pub open spec fn all_wf_ms(s: Seq<Span>) -> bool {
    forall|i: int| 0 <= i < s.len() ==> #[trigger] s[i].wf_ms()
}

/// Every span of `s` is proper.
pub open spec fn all_proper(s: Seq<Span>) -> bool {
    forall|i: int| 0 <= i < s.len() ==> #[trigger] s[i].is_proper()
}

/// Some span of `s` covers `t`.
pub open spec fn covered(s: Seq<Span>, t: int) -> bool {
    exists|i: int| 0 <= i < s.len() && #[trigger] s[i].covers(t)
}

/// Starts never decrease along `s`.
pub open spec fn sorted_by_from(s: Seq<Span>) -> bool {
    forall|i: int, j: int| 0 <= i <= j < s.len() ==> s[i].from <= s[j].from
}

/// Proper spans, each ending strictly before the next one starts.
pub open spec fn is_chain(s: Seq<Span>) -> bool {
    &&& all_proper(s)
    &&& forall|i: int, j: int| 0 <= i < j < s.len() ==> s[i].to < s[j].from
}

/// Between two neighbours of `s` lies a pause longer than `gap` seconds.
pub open spec fn gaps_exceed(s: Seq<Span>, gap: int) -> bool {
    forall|i: int, j: int| 0 <= i && j == i + 1 && j < s.len() ==> s[j].from - s[i].to > gap
}

/// `x` placed after every span of `sorted` whose start is not later than its own.
pub open spec fn insert_by_from(sorted: Seq<Span>, x: Span) -> Seq<Span>
    decreases sorted.len(),
{
    if sorted.len() == 0 || sorted.last().from <= x.from {
        sorted.push(x)
    } else {
        insert_by_from(sorted.drop_last(), x).push(sorted.last())
    }
}

/// `s` ordered by start; spans with equal starts keep their order.
pub open spec fn sort_by_from(s: Seq<Span>) -> Seq<Span>
    decreases s.len(),
{
    if s.len() == 0 {
        s
    } else {
        insert_by_from(sort_by_from(s.drop_last()), s.last())
    }
}

/// `next`, coming after `prev`, starts before `prev` ends or at most `gap` seconds after.
pub open spec fn joins(prev: Span, next: Span, gap: int) -> bool {
    next.from <= prev.to || next.from - prev.to <= gap
}

/// The larger of two instants.
pub open spec fn later(a: i64, b: i64) -> i64 {
    if a >= b { a } else { b }
}

/// `merged` after taking in `x`: the last span is stretched over `x` when they join,
/// otherwise `x` is appended.
pub open spec fn absorb(merged: Seq<Span>, x: Span, gap: int) -> Seq<Span> {
    if merged.len() == 0 {
        seq![x]
    } else if joins(merged.last(), x, gap) {
        merged.update(
            merged.len() - 1,
            Span { from: merged.last().from, to: later(merged.last().to, x.to) },
        )
    } else {
        merged.push(x)
    }
}

/// The spans of `s`, taken in order, merged whenever they overlap or lie at most `gap` apart.
pub open spec fn merge_in_order(s: Seq<Span>, gap: int) -> Seq<Span>
    decreases s.len(),
{
    if s.len() == 0 {
        seq![]
    } else {
        absorb(merge_in_order(s.drop_last(), gap), s.last(), gap)
    }
}

/// What `merge_spans` returns for `spans`.
pub open spec fn merged_spans(spans: Seq<Span>, gap: int) -> Seq<Span> {
    merge_in_order(sort_by_from(spans), gap)
}

// ---------------------------------------------------------------------------
// Ordering
// ---------------------------------------------------------------------------

/// Where the last `k` spans of `sorted` all start after `x` and the one before them
/// (if any) does not, `x` is inserted just in front of those `k` spans.
proof fn lemma_insert_position(sorted: Seq<Span>, x: Span, j: int)
    requires
        0 <= j <= sorted.len(),
        forall|k: int| j <= k < sorted.len() ==> sorted[k].from > x.from,
        j == 0 || sorted[j - 1].from <= x.from,
    ensures
        insert_by_from(sorted, x) == sorted.insert(j, x),
    decreases sorted.len(),
{
    if sorted.len() == 0 {
        assert(sorted.insert(j, x) =~= seq![x]);
    } else if sorted.last().from <= x.from {
        assert(j == sorted.len());
        assert(sorted.insert(j, x) =~= sorted.push(x));
    } else {
        lemma_insert_position(sorted.drop_last(), x, j);
        assert(sorted.drop_last().insert(j, x).push(sorted.last()) =~= sorted.insert(j, x));
    }
}

proof fn lemma_insert_sorted(sorted: Seq<Span>, x: Span)
    requires
        sorted_by_from(sorted),
    ensures
        sorted_by_from(insert_by_from(sorted, x)),
        insert_by_from(sorted, x).len() == sorted.len() + 1,
        insert_by_from(sorted, x).to_multiset() =~= sorted.to_multiset().insert(x),
    decreases sorted.len(),
{
    broadcast use vstd::seq_lib::to_multiset_build;

    if sorted.len() == 0 || sorted.last().from <= x.from {
    } else {
        let rest = sorted.drop_last();
        lemma_insert_sorted(rest, x);
        let r = insert_by_from(rest, x);
        assert(sorted =~= rest.push(sorted.last()));
        assert(forall|i: int| 0 <= i < r.len() ==> r[i].from <= sorted.last().from) by {
            assert forall|i: int| 0 <= i < r.len() implies r[i].from <= sorted.last().from by {
                broadcast use vstd::seq_lib::to_multiset_contains;
                broadcast use vstd::multiset::group_multiset_axioms;

                assert(r.contains(r[i]));
                assert(r.to_multiset().count(r[i]) > 0);
                assert(rest.to_multiset().insert(x).count(r[i]) > 0);
                if r[i] != x {
                    assert(rest.to_multiset().count(r[i]) > 0);
                    assert(rest.contains(r[i]));
                    let k = choose|k: int| 0 <= k < rest.len() && rest[k] == r[i];
                    assert(sorted[k] == rest[k]);
                }
            }
        }
        assert(rest.push(sorted.last()).to_multiset() =~= rest.to_multiset().insert(sorted.last()));
    }
}

/// Law: `sort_by_from` returns the same spans, ordered by start.
pub proof fn lemma_sort_by_from(s: Seq<Span>)
    ensures
        sorted_by_from(sort_by_from(s)),
        sort_by_from(s).len() == s.len(),
        sort_by_from(s).to_multiset() =~= s.to_multiset(),
    decreases s.len(),
{
    broadcast use vstd::seq_lib::to_multiset_build;

    if s.len() > 0 {
        lemma_sort_by_from(s.drop_last());
        lemma_insert_sorted(sort_by_from(s.drop_last()), s.last());
        assert(s =~= s.drop_last().push(s.last()));
    }
}

/// A span of `a` occurs in `b` when both hold the same spans.
proof fn lemma_member_of_permutation(a: Seq<Span>, b: Seq<Span>, i: int)
    requires
        a.to_multiset() =~= b.to_multiset(),
        0 <= i < a.len(),
    ensures
        b.contains(a[i]),
{
    broadcast use vstd::seq_lib::to_multiset_contains;

    assert(a.contains(a[i]));
    assert(a.to_multiset().count(a[i]) > 0);
    assert(b.to_multiset().count(a[i]) > 0);
}

/// Law: spans already ordered by start are left as they are.
pub proof fn lemma_sort_of_sorted(s: Seq<Span>)
    requires
        sorted_by_from(s),
    ensures
        sort_by_from(s) == s,
    decreases s.len(),
{
    if s.len() > 0 {
        lemma_sort_of_sorted(s.drop_last());
        assert(s.drop_last().push(s.last()) =~= s);
    }
}

/// Returns `spans` ordered by start; spans with equal starts keep their order.
pub fn sort_spans_by_from(spans: &Vec<Span>) -> (sorted: Vec<Span>)
    ensures
        sorted@ == sort_by_from(spans@),
{
    let mut sorted: Vec<Span> = Vec::new();
    let n = spans.len();
    let mut i: usize = 0;
    while i < n
        invariant
            n == spans.len(),
            i <= n,
            sorted@ == sort_by_from(spans@.take(i as int)),
        decreases n - i,
    {
        let x = spans[i];
        proof {
            lemma_sort_by_from(spans@.take(i as int));
        }
        let mut j: usize = sorted.len();
        while j > 0 && sorted[j - 1].from > x.from
            invariant
                j <= sorted.len(),
                forall|k: int| j <= k < sorted.len() ==> sorted@[k].from > x.from,
            decreases j,
        {
            j = j - 1;
        }
        proof {
            lemma_insert_position(sorted@, x, j as int);
            assert(spans@.take(i + 1).drop_last() =~= spans@.take(i as int));
        }
        sorted.insert(j, x);
        i = i + 1;
    }
    assert(spans@.take(n as int) =~= spans@);
    sorted
}

// ---------------------------------------------------------------------------
// Merging
// ---------------------------------------------------------------------------

/// What merging spans in order keeps true at every step.
proof fn lemma_merge_in_order(s: Seq<Span>, gap: int)
    requires
        sorted_by_from(s),
        all_proper(s),
    ensures
        is_chain(merge_in_order(s, gap)),
        gaps_exceed(merge_in_order(s, gap), gap),
        merge_in_order(s, gap).len() <= s.len(),
        (merge_in_order(s, gap).len() == 0) == (s.len() == 0),
        s.len() > 0 ==> forall|k: int| 0 <= k < merge_in_order(s, gap).len()
            ==> #[trigger] merge_in_order(s, gap)[k].from <= s.last().from,
        all_wf(s) ==> all_wf(merge_in_order(s, gap)),
        all_wf_ms(s) ==> all_wf_ms(merge_in_order(s, gap)),
        forall|t: int| covered(s, t) ==> covered(merge_in_order(s, gap), t),
        gap <= 0 ==> forall|t: int| covered(merge_in_order(s, gap), t) ==> covered(s, t),
        forall|i: int| 0 <= i < s.len() ==> held_by(merge_in_order(s, gap), #[trigger] s[i]),
    decreases s.len(),
{
    if s.len() > 0 {
        let p = s.drop_last();
        let x = s.last();
        assert(sorted_by_from(p));
        assert(all_proper(p));
        lemma_merge_in_order(p, gap);
        let mp = merge_in_order(p, gap);
        let m = merge_in_order(s, gap);
        assert(m == absorb(mp, x, gap));
        assert(x.is_proper());
        if mp.len() > 0 {
            assert(mp.last().from <= p.last().from);
            assert(p.last().from <= x.from);
        }
        // chain, gaps, starts
        if mp.len() > 0 && !joins(mp.last(), x, gap) {
            assert forall|i: int, j: int| 0 <= i < j < m.len() implies m[i].to < m[j].from by {
                if j == m.len() - 1 {
                    assert(mp.last().is_proper());
                    if i < mp.len() - 1 {
                        assert(mp[i].to < mp[mp.len() - 1].from);
                    }
                    assert(mp[i].to <= mp.last().to);
                }
            }
        }
        // well-formedness
        if all_wf(s) {
            assert(all_wf(p));
            assert(x.wf());
            assert forall|k: int| 0 <= k < m.len() implies #[trigger] m[k].wf() by {
                if k < mp.len() {
                    assert(mp[k].wf());
                }
            }
        }
        if all_wf_ms(s) {
            assert(all_wf_ms(p));
            assert(x.wf_ms());
            assert forall|k: int| 0 <= k < m.len() implies #[trigger] m[k].wf_ms() by {
                if k < mp.len() {
                    assert(mp[k].wf_ms());
                }
            }
        }
        // every span of the input lies within one merged span
        assert forall|i: int| 0 <= i < s.len() implies held_by(m, #[trigger] s[i]) by {
            if i < p.len() {
                assert(s[i] == p[i]);
                assert(held_by(mp, p[i]));
                let k = choose|k: int| 0 <= k < mp.len() && #[trigger] mp[k].holds(p[i]);
                if mp.len() > 0 && joins(mp.last(), x, gap) && k == mp.len() - 1 {
                    assert(m[k].holds(s[i]));
                } else {
                    assert(m[k] == mp[k]);
                    assert(m[k].holds(s[i]));
                }
            } else {
                assert(s[i] == x);
                let k = m.len() - 1;
                assert(m[k].holds(s[i]));
            }
        }
        // coverage of the input
        assert forall|t: int| covered(s, t) implies covered(m, t) by {
            let i = choose|i: int| 0 <= i < s.len() && #[trigger] s[i].covers(t);
            if i < p.len() {
                assert(p[i].covers(t));
                assert(covered(p, t));
                let k = choose|k: int| 0 <= k < mp.len() && #[trigger] mp[k].covers(t);
                if mp.len() > 0 && joins(mp.last(), x, gap) && k == mp.len() - 1 {
                    assert(m[k].covers(t));
                } else {
                    assert(m[k] == mp[k]);
                    assert(m[k].covers(t));
                }
            } else {
                assert(s[i] == x);
                let k = m.len() - 1;
                assert(m[k].covers(t));
            }
        }
        // nothing else is covered when only overlapping spans are merged
        if gap <= 0 {
            assert forall|t: int| covered(m, t) implies covered(s, t) by {
                let k = choose|k: int| 0 <= k < m.len() && #[trigger] m[k].covers(t);
                if mp.len() > 0 && joins(mp.last(), x, gap) && k == mp.len() - 1 {
                    if t <= mp.last().to {
                        assert(mp[k].covers(t));
                        assert(covered(mp, t));
                        assert(covered(p, t));
                        let i = choose|i: int| 0 <= i < p.len() && #[trigger] p[i].covers(t);
                        assert(s[i] == p[i]);
                        assert(s[i].covers(t));
                    } else {
                        assert(s[s.len() - 1].covers(t));
                    }
                } else if k < mp.len() {
                    assert(m[k] == mp[k]);
                    assert(mp[k].covers(t));
                    assert(covered(mp, t));
                    assert(covered(p, t));
                    let i = choose|i: int| 0 <= i < p.len() && #[trigger] p[i].covers(t);
                    assert(s[i] == p[i]);
                    assert(s[i].covers(t));
                } else {
                    assert(s[s.len() - 1].covers(t));
                }
            }
        }
    }
}

/// Law: merged spans form a chain, with pauses longer than `gap` between neighbours; each
/// input span lies wholly within one merged span; they stay within the calendar where the
/// input does, and, where only overlapping spans are merged (`gap <= 0`), cover nothing else.
pub proof fn lemma_merged_spans(spans: Seq<Span>, gap: int)
    requires
        all_proper(spans),
    ensures
        is_chain(merged_spans(spans, gap)),
        gaps_exceed(merged_spans(spans, gap), gap),
        merged_spans(spans, gap).len() <= spans.len(),
        (merged_spans(spans, gap).len() == 0) == (spans.len() == 0),
        all_wf(spans) ==> all_wf(merged_spans(spans, gap)),
        all_wf_ms(spans) ==> all_wf_ms(merged_spans(spans, gap)),
        forall|t: int| covered(spans, t) ==> covered(merged_spans(spans, gap), t),
        gap <= 0 ==> forall|t: int| covered(merged_spans(spans, gap), t) <==> covered(spans, t),
        forall|i: int| 0 <= i < spans.len() ==> held_by(merged_spans(spans, gap), #[trigger] spans[i]),
{
    let sorted = sort_by_from(spans);
    lemma_sort_by_from(spans);
    assert forall|i: int| 0 <= i < sorted.len() implies #[trigger] sorted[i].is_proper() by {
        lemma_member_of_permutation(sorted, spans, i);
    }
    assert forall|t: int| covered(spans, t) <==> covered(sorted, t) by {
        if covered(spans, t) {
            let i = choose|i: int| 0 <= i < spans.len() && #[trigger] spans[i].covers(t);
            lemma_member_of_permutation(spans, sorted, i);
            let j = choose|j: int| 0 <= j < sorted.len() && sorted[j] == spans[i];
            assert(sorted[j].covers(t));
        }
        if covered(sorted, t) {
            let i = choose|i: int| 0 <= i < sorted.len() && #[trigger] sorted[i].covers(t);
            lemma_member_of_permutation(sorted, spans, i);
            let j = choose|j: int| 0 <= j < spans.len() && spans[j] == sorted[i];
            assert(spans[j].covers(t));
        }
    }
    if all_wf(spans) {
        assert forall|i: int| 0 <= i < sorted.len() implies #[trigger] sorted[i].wf() by {
            lemma_member_of_permutation(sorted, spans, i);
        }
    }
    if all_wf_ms(spans) {
        assert forall|i: int| 0 <= i < sorted.len() implies #[trigger] sorted[i].wf_ms() by {
            lemma_member_of_permutation(sorted, spans, i);
        }
    }
    lemma_merge_in_order(sorted, gap);
    assert forall|i: int| 0 <= i < spans.len() implies held_by(
        merged_spans(spans, gap),
        #[trigger] spans[i],
    ) by {
        lemma_member_of_permutation(spans, sorted, i);
        let j = choose|j: int| 0 <= j < sorted.len() && sorted[j] == spans[i];
        assert(held_by(merge_in_order(sorted, gap), sorted[j]));
    }
}

/// Merging spans that already form a chain with pauses longer than `gap` changes nothing.
proof fn lemma_merge_of_merged(s: Seq<Span>, gap: int)
    requires
        is_chain(s),
        gaps_exceed(s, gap),
    ensures
        merge_in_order(s, gap) == s,
    decreases s.len(),
{
    if s.len() > 0 {
        let p = s.drop_last();
        assert(is_chain(p));
        assert(gaps_exceed(p, gap));
        lemma_merge_of_merged(p, gap);
        if p.len() > 0 {
            assert(s[s.len() - 1].from - s[s.len() - 2].to > gap);
            assert(s[s.len() - 2].to < s[s.len() - 1].from);
        }
        assert(p.push(s.last()) =~= s);
    }
}

/// Law: merging twice with the same `gap` gives what merging once gives.
pub proof fn lemma_merge_idempotent(spans: Seq<Span>, gap: int)
    requires
        all_proper(spans),
    ensures
        merged_spans(merged_spans(spans, gap), gap) == merged_spans(spans, gap),
{
    let m = merged_spans(spans, gap);
    lemma_merged_spans(spans, gap);
    assert(sorted_by_from(m)) by {
        assert forall|i: int, j: int| 0 <= i <= j < m.len() implies m[i].from <= m[j].from by {
            if i < j {
                assert(m[i].is_proper());
            }
        }
    }
    lemma_sort_of_sorted(m);
    lemma_merge_of_merged(m, gap);
}

// ---------------------------------------------------------------------------
// Merging does not depend on the order of the input
// ---------------------------------------------------------------------------

/// Two proper spans with the same start can be taken in either order.
proof fn lemma_absorb_swap(m: Seq<Span>, x: Span, y: Span, gap: int)
    requires
        x.from == y.from,
        x.is_proper(),
        y.is_proper(),
    ensures
        absorb(absorb(m, x, gap), y, gap) == absorb(absorb(m, y, gap), x, gap),
{
    if m.len() == 0 {
        assert(absorb(absorb(m, x, gap), y, gap) =~= absorb(absorb(m, y, gap), x, gap));
    } else if joins(m.last(), x, gap) {
        assert(absorb(absorb(m, x, gap), y, gap) =~= absorb(absorb(m, y, gap), x, gap));
    } else {
        assert(absorb(absorb(m, x, gap), y, gap) =~= absorb(absorb(m, y, gap), x, gap));
    }
}

/// Spans merged to the same result stay so when the same spans follow.
proof fn lemma_merge_same_tail(u1: Seq<Span>, u2: Seq<Span>, q: Seq<Span>, gap: int)
    requires
        merge_in_order(u1, gap) == merge_in_order(u2, gap),
    ensures
        merge_in_order(u1 + q, gap) == merge_in_order(u2 + q, gap),
    decreases q.len(),
{
    if q.len() == 0 {
        assert(u1 + q =~= u1);
        assert(u2 + q =~= u2);
    } else {
        lemma_merge_same_tail(u1, u2, q.drop_last(), gap);
        assert((u1 + q).drop_last() =~= u1 + q.drop_last());
        assert((u2 + q).drop_last() =~= u2 + q.drop_last());
        assert((u1 + q).last() == q.last());
        assert((u2 + q).last() == q.last());
    }
}

/// The spans at `k` and `k + 1`, proper and with the same start, can change places.
proof fn lemma_merge_swap(u: Seq<Span>, k: int, gap: int)
    requires
        0 <= k,
        k + 1 < u.len(),
        u[k].from == u[k + 1].from,
        u[k].is_proper(),
        u[k + 1].is_proper(),
    ensures
        merge_in_order(u, gap) == merge_in_order(u.update(k, u[k + 1]).update(k + 1, u[k]), gap),
{
    let x = u[k];
    let y = u[k + 1];
    let p = u.take(k);
    let q = u.skip(k + 2);
    let w = u.update(k, y).update(k + 1, x);
    let a = p.push(x).push(y);
    let b = p.push(y).push(x);
    assert(u =~= a + q);
    assert(w =~= b + q);
    assert(a.drop_last() =~= p.push(x));
    assert(b.drop_last() =~= p.push(y));
    assert(p.push(x).drop_last() =~= p);
    assert(p.push(y).drop_last() =~= p);
    assert(merge_in_order(p.push(x), gap) == absorb(merge_in_order(p, gap), x, gap));
    assert(merge_in_order(p.push(y), gap) == absorb(merge_in_order(p, gap), y, gap));
    assert(merge_in_order(a, gap) == absorb(merge_in_order(p.push(x), gap), y, gap));
    assert(merge_in_order(b, gap) == absorb(merge_in_order(p.push(y), gap), x, gap));
    lemma_absorb_swap(merge_in_order(p, gap), x, y, gap);
    lemma_merge_same_tail(a, b, q, gap);
}

/// A span followed only by spans with the same start can be moved to the end.
proof fn lemma_merge_move_to_end(b: Seq<Span>, k: int, gap: int)
    requires
        0 <= k < b.len(),
        all_proper(b),
        forall|j: int| k < j < b.len() ==> #[trigger] b[j].from == b[k].from,
    ensures
        merge_in_order(b, gap) == merge_in_order(b.remove(k).push(b[k]), gap),
    decreases b.len() - k,
{
    if k == b.len() - 1 {
        assert(b.remove(k).push(b[k]) =~= b);
    } else {
        assert(b[k].is_proper());
        assert(b[k + 1].is_proper());
        lemma_merge_swap(b, k, gap);
        let c = b.update(k, b[k + 1]).update(k + 1, b[k]);
        assert forall|j: int| k + 1 < j < c.len() implies #[trigger] c[j].from == c[k + 1].from by {
            assert(c[j] == b[j]);
        }
        assert forall|i: int| 0 <= i < c.len() implies #[trigger] c[i].is_proper() by {
            if i != k && i != k + 1 {
                assert(c[i] == b[i]);
            }
        }
        lemma_merge_move_to_end(c, k + 1, gap);
        assert(c.remove(k + 1) =~= b.remove(k));
    }
}

/// Spans ordered by start that are the same spans merge to the same result.
proof fn lemma_merge_sorted_permutations(a: Seq<Span>, b: Seq<Span>, gap: int)
    requires
        sorted_by_from(a),
        sorted_by_from(b),
        all_proper(a),
        a.to_multiset() =~= b.to_multiset(),
    ensures
        merge_in_order(a, gap) == merge_in_order(b, gap),
    decreases a.len(),
{
    broadcast use vstd::seq_lib::to_multiset_len;
    broadcast use vstd::seq_lib::to_multiset_build;
    broadcast use vstd::seq_lib::to_multiset_remove;

    assert(a.len() == a.to_multiset().len());
    assert(b.len() == b.to_multiset().len());
    if a.len() == 0 {
        assert(b =~= a);
    } else {
        let n = a.len() as int;
        let x = a.last();
        lemma_member_of_permutation(a, b, n - 1);
        let k = choose|k: int| 0 <= k < b.len() && b[k] == x;
        assert forall|j: int| 0 <= j < b.len() implies #[trigger] b[j].is_proper()
            && b[j].from <= x.from by {
            lemma_member_of_permutation(b, a, j);
            let i = choose|i: int| 0 <= i < a.len() && a[i] == b[j];
            assert(a[i].is_proper());
        }
        assert forall|j: int| k < j < b.len() implies #[trigger] b[j].from == b[k].from by {
            assert(b[j].is_proper());
        }
        lemma_merge_move_to_end(b, k, gap);
        let a1 = a.drop_last();
        let b1 = b.remove(k);
        assert(sorted_by_from(b1)) by {
            assert forall|i: int, j: int| 0 <= i <= j < b1.len() implies b1[i].from
                <= b1[j].from by {
                let bi = if i < k { i } else { i + 1 };
                let bj = if j < k { j } else { j + 1 };
                assert(b1[i] == b[bi]);
                assert(b1[j] == b[bj]);
            }
        }
        assert(a =~= a1.push(x));
        assert(b1.to_multiset() =~= b.to_multiset().remove(x));
        assert(a1.to_multiset() =~= a.to_multiset().remove(x)) by {
            assert(a.to_multiset() =~= a1.to_multiset().insert(x));
        }
        lemma_merge_sorted_permutations(a1, b1, gap);
        assert(b1.push(x).drop_last() =~= b1);
    }
}

/// Law: merging does not depend on the order in which the spans come: the same spans, in any
/// order, merge to the same result.
pub proof fn lemma_merge_ignores_order(a: Seq<Span>, b: Seq<Span>, gap: int)
    requires
        all_proper(a),
        a.to_multiset() =~= b.to_multiset(),
    ensures
        merged_spans(a, gap) == merged_spans(b, gap),
{
    let sa = sort_by_from(a);
    let sb = sort_by_from(b);
    lemma_sort_by_from(a);
    lemma_sort_by_from(b);
    assert forall|i: int| 0 <= i < sa.len() implies #[trigger] sa[i].is_proper() by {
        lemma_member_of_permutation(sa, a, i);
    }
    lemma_merge_sorted_permutations(sa, sb, gap);
}

/// Orders `spans` by start, then merges each span into the previous one when it starts
/// before that one ends or at most `max_gap_sec` seconds after.
pub fn merge_spans(spans: Vec<Span>, max_gap_sec: i64) -> (merged: Vec<Span>)
    ensures
        merged@ == merged_spans(spans@, max_gap_sec as int),
{
    let sorted = sort_spans_by_from(&spans);
    let n = sorted.len();
    let mut merged: Vec<Span> = Vec::new();
    let mut i: usize = 0;
    while i < n
        invariant
            n == sorted.len(),
            i <= n,
            merged@ == merge_in_order(sorted@.take(i as int), max_gap_sec as int),
        decreases n - i,
    {
        let s = sorted[i];
        let len = merged.len();
        proof {
            assert(sorted@.take(i + 1).drop_last() =~= sorted@.take(i as int));
            assert(sorted@.take(i + 1).last() == s);
        }
        if len == 0 {
            merged.push(s);
            assert(merged@ =~= seq![s]);
        } else {
            let prev = merged[len - 1];
            let diff: i128 = s.from as i128 - prev.to as i128;
            if s.from <= prev.to || diff <= max_gap_sec as i128 {
                let to = if prev.to >= s.to { prev.to } else { s.to };
                merged.set(len - 1, Span { from: prev.from, to });
            } else {
                merged.push(s);
            }
        }
        i = i + 1;
    }
    assert(sorted@.take(n as int) =~= sorted@);
    merged
}

/// Time that spans `a` and `b` have in common, in the spans' unit.
pub open spec fn overlap(a: Span, b: Span) -> int {
    let start = if a.from >= b.from { a.from } else { b.from };
    let end = if a.to <= b.to { a.to } else { b.to };
    if start >= end { 0 } else { end - start }
}

/// Returns the time that two spans have in common, in the spans' unit.
pub fn time_overlap(s1: &Span, s2: &Span) -> (seconds: i64)
    requires
        s1.wf_ms(),
        s2.wf_ms(),
    ensures
        seconds == overlap(*s1, *s2),
{
    let start = if s1.from >= s2.from { s1.from } else { s2.from };
    let end = if s1.to <= s2.to { s1.to } else { s2.to };
    if start >= end {
        0
    } else {
        end - start
    }
}

} // verus!
