//! Folding a fetched issue list into a time series of open-issue counts.
//!
//! Every issue contributes an open event at its creation time and, if it was
//! closed, a close event at its close time.  All events are merged into one
//! sequence ordered by timestamp, with opens applied before closes at equal
//! timestamps, and the running open-issue count after each event forms the
//! series.

use vstd::prelude::*;
use vstd::multiset::Multiset;
use vstd::relations::{sorted_by, total_ordering};
use vstd::seq_lib::group_to_multiset_ensures;
use vstd::seq_lib::lemma_multiset_commutative;
use vstd::seq_lib::lemma_sorted_unique;
use crate::model::Issue;

verus! {

/// One +1/-1 event on the open-issue count. `close` false is an open event.
#[derive(Clone, Copy, PartialEq, Eq, Structural, Debug)]
pub struct Event {
    pub time: i64,
    pub close: bool,
}

/// Order on events: by timestamp, and opens before closes at equal
/// timestamps, so an issue is never counted closed before it was opened.
pub open spec fn event_le(a: Event, b: Event) -> bool {
    a.time < b.time || (a.time == b.time && (!a.close || b.close))
}

/// The event order as a relation value, for use with vstd's sorting library.
pub open spec fn event_leq() -> spec_fn(Event, Event) -> bool {
    |a: Event, b: Event| event_le(a, b)
}

/// The event order is a total order.
pub proof fn lemma_event_le_total()
    ensures
        total_ordering(event_leq()),
{
}

/// The events a single issue contributes, opens first.
pub open spec fn issue_events(i: Issue) -> Seq<Event> {
    match i.closed_at {
        Some(t) => seq![
            Event { time: i.created_at, close: false },
            Event { time: t, close: true },
        ],
        None => seq![Event { time: i.created_at, close: false }],
    }
}

/// All events of a sequence of issues, in input order.
pub open spec fn events_of(issues: Seq<Issue>) -> Seq<Event>
    decreases issues.len(),
{
    if issues.len() == 0 {
        Seq::empty()
    } else {
        issue_events(issues[0]) + events_of(issues.drop_first())
    }
}

/// The running open-issue count after the first `k` events of `ev`.
pub open spec fn count_after(ev: Seq<Event>, k: int) -> int
    decreases k,
{
    if k <= 0 {
        0
    } else {
        count_after(ev, k - 1) + (if ev[k - 1].close { -1int } else { 1int })
    }
}

/// The time series read off an event sequence: one entry per event, pairing
/// the event's timestamp with the open count after it.
pub open spec fn series_of(ev: Seq<Event>) -> Seq<(i64, i64)> {
    Seq::new(ev.len(), |i: int| (ev[i].time, count_after(ev, i + 1) as i64))
}

/// What `aggregate` returns: the series of the canonically sorted events.
pub open spec fn spec_series(issues: Seq<Issue>) -> Seq<(i64, i64)> {
    series_of(events_of(issues).sort_by(event_leq()))
}

proof fn lemma_events_of_snoc(s: Seq<Issue>, x: Issue)
    ensures
        events_of(s.push(x)) == events_of(s) + issue_events(x),
    decreases s.len(),
{
    if s.len() == 0 {
        assert(s.push(x).drop_first() =~= Seq::<Issue>::empty());
        assert(events_of(Seq::<Issue>::empty()) =~= Seq::<Event>::empty());
        assert(s.push(x)[0] == x);
        assert(events_of(s.push(x)) =~= events_of(s) + issue_events(x));
    } else {
        assert(s.push(x).drop_first() =~= s.drop_first().push(x));
        lemma_events_of_snoc(s.drop_first(), x);
        assert(events_of(s.push(x)) =~= events_of(s) + issue_events(x));
    }
}

proof fn lemma_events_of_remove(s: Seq<Issue>, i: int)
    requires
        0 <= i < s.len(),
    ensures
        events_of(s).to_multiset() == events_of(s.remove(i)).to_multiset().add(
            issue_events(s[i]).to_multiset(),
        ),
    decreases i,
{
    broadcast use group_to_multiset_ensures;

    if i == 0 {
        assert(s.remove(0) =~= s.drop_first());
        lemma_multiset_commutative(issue_events(s[0]), events_of(s.drop_first()));
        assert(events_of(s).to_multiset() =~= events_of(s.remove(0)).to_multiset().add(
            issue_events(s[0]).to_multiset(),
        ));
    } else {
        assert(s.remove(i).drop_first() =~= s.drop_first().remove(i - 1));
        assert(s.remove(i)[0] == s[0]);
        lemma_events_of_remove(s.drop_first(), i - 1);
        lemma_multiset_commutative(issue_events(s[0]), events_of(s.drop_first()));
        lemma_multiset_commutative(issue_events(s[0]), events_of(s.drop_first().remove(i - 1)));
        assert(events_of(s).to_multiset() =~= events_of(s.remove(i)).to_multiset().add(
            issue_events(s[i]).to_multiset(),
        ));
    }
}

/// Two issue sequences with the same multiset of issues yield the same
/// multiset of events.
proof fn lemma_events_of_multiset(s1: Seq<Issue>, s2: Seq<Issue>)
    requires
        s1.to_multiset() == s2.to_multiset(),
    ensures
        events_of(s1).to_multiset() == events_of(s2).to_multiset(),
    decreases s1.len(),
{
    broadcast use group_to_multiset_ensures;

    if s1.len() == 0 {
        assert(s1.to_multiset().len() == s1.len());
        assert(s2.to_multiset().len() == s2.len());
        assert(s2.len() == 0);
        assert(events_of(s1).to_multiset() =~= events_of(s2).to_multiset());
    } else {
        let x = s1[0];
        assert(s1.to_multiset().contains(x));
        assert(s2.to_multiset().contains(x));
        assert(s2.contains(x));
        let i = choose|i: int| 0 <= i < s2.len() && s2[i] == x;
        assert(s1.remove(0).to_multiset() =~= s1.to_multiset().remove(x));
        assert(s2.remove(i).to_multiset() =~= s2.to_multiset().remove(x));
        assert(s1.remove(0) =~= s1.drop_first());
        lemma_events_of_multiset(s1.drop_first(), s2.remove(i));
        lemma_events_of_remove(s1, 0);
        lemma_events_of_remove(s2, i);
        assert(events_of(s1).to_multiset() =~= events_of(s2).to_multiset());
    }
}

/// Aggregation is order-independent: two issue sequences that hold the same
/// issues (as a multiset, so in any order) produce the same time series.
pub proof fn lemma_aggregate_order_independent(s1: Seq<Issue>, s2: Seq<Issue>)
    requires
        s1.to_multiset() == s2.to_multiset(),
    ensures
        spec_series(s1) == spec_series(s2),
{
    lemma_event_le_total();
    lemma_events_of_multiset(s1, s2);
    events_of(s1).lemma_sort_by_ensures(event_leq());
    events_of(s2).lemma_sort_by_ensures(event_leq());
    lemma_sorted_unique(
        events_of(s1).sort_by(event_leq()),
        events_of(s2).sort_by(event_leq()),
        event_leq(),
    );
    assert(events_of(s1).sort_by(event_leq()) =~= events_of(s2).sort_by(event_leq()));
}

/// In the sorted event sequence behind `spec_series`, a close at some
/// timestamp never precedes an open at the same timestamp: ties are broken by
/// applying opens first.
pub proof fn lemma_ties_open_first(issues: Seq<Issue>, i: int, j: int)
    requires
        0 <= i < j < events_of(issues).sort_by(event_leq()).len(),
        events_of(issues).sort_by(event_leq())[i].time == events_of(issues).sort_by(
            event_leq(),
        )[j].time,
        events_of(issues).sort_by(event_leq())[i].close,
    ensures
        events_of(issues).sort_by(event_leq())[j].close,
{
    lemma_event_le_total();
    events_of(issues).lemma_sort_by_ensures(event_leq());
    let ev = events_of(issues).sort_by(event_leq());
    assert(event_leq()(ev[i], ev[j]));
    assert(event_le(ev[i], ev[j]));
}

/// A single issue created at `t0` and closed at `t1 >= t0` aggregates to
/// exactly `[(t0, 1), (t1, 0)]`: the count rises to one and falls back to
/// zero, also when `t0 == t1`.
pub proof fn lemma_single_issue_series(i: Issue)
    requires
        i.closed_at is Some,
        i.created_at <= i.closed_at.unwrap(),
    ensures
        spec_series(seq![i]) == seq![
            (i.created_at, 1i64),
            (i.closed_at.unwrap(), 0i64),
        ],
{
    lemma_event_le_total();
    let open = Event { time: i.created_at, close: false };
    let close = Event { time: i.closed_at.unwrap(), close: true };
    let ev = seq![open, close];
    assert(seq![i].drop_first() =~= Seq::<Issue>::empty());
    assert(events_of(Seq::<Issue>::empty()) =~= Seq::<Event>::empty());
    assert(seq![i][0] == i);
    assert(issue_events(i) =~= ev);
    assert(events_of(seq![i]) =~= ev);
    assert forall|a: int, b: int| 0 <= a < b < ev.len() implies event_leq()(ev[a], ev[b]) by {
        assert(event_le(open, close));
    }
    assert(sorted_by(ev, event_leq()));
    ev.lemma_sort_by_ensures(event_leq());
    lemma_sorted_unique(ev.sort_by(event_leq()), ev, event_leq());
    assert(ev.sort_by(event_leq()) =~= ev);
    assert(count_after(ev, 0) == 0);
    assert(count_after(ev, 1) == 1);
    assert(count_after(ev, 2) == 0);
    assert(spec_series(seq![i]) =~= seq![(i.created_at, 1i64), (i.closed_at.unwrap(), 0i64)]);
}

/// The sum of `f` over the elements of `s`.
spec fn wcount(s: Seq<Event>, f: spec_fn(Event) -> int) -> int
    decreases s.len(),
{
    if s.len() == 0 {
        0
    } else {
        f(s[0]) + wcount(s.drop_first(), f)
    }
}

proof fn lemma_wcount_concat(a: Seq<Event>, b: Seq<Event>, f: spec_fn(Event) -> int)
    ensures
        wcount(a + b, f) == wcount(a, f) + wcount(b, f),
    decreases a.len(),
{
    if a.len() == 0 {
        assert(a + b =~= b);
    } else {
        assert((a + b).drop_first() =~= a.drop_first() + b);
        assert((a + b)[0] == a[0]);
        lemma_wcount_concat(a.drop_first(), b, f);
    }
}

proof fn lemma_wcount_pointwise(s: Seq<Event>, f: spec_fn(Event) -> int, g: spec_fn(Event) -> int)
    requires
        forall|i: int| 0 <= i < s.len() ==> f(#[trigger] s[i]) == g(s[i]),
    ensures
        wcount(s, f) == wcount(s, g),
    decreases s.len(),
{
    if s.len() > 0 {
        assert(forall|i: int|
            0 <= i < s.drop_first().len() ==> #[trigger] s.drop_first()[i] == s[i + 1]);
        lemma_wcount_pointwise(s.drop_first(), f, g);
    }
}

proof fn lemma_wcount_remove(s: Seq<Event>, i: int, f: spec_fn(Event) -> int)
    requires
        0 <= i < s.len(),
    ensures
        wcount(s, f) == wcount(s.remove(i), f) + f(s[i]),
    decreases i,
{
    if i == 0 {
        assert(s.remove(0) =~= s.drop_first());
    } else {
        assert(s.remove(i).drop_first() =~= s.drop_first().remove(i - 1));
        assert(s.remove(i)[0] == s[0]);
        lemma_wcount_remove(s.drop_first(), i - 1, f);
    }
}

proof fn lemma_wcount_multiset(s1: Seq<Event>, s2: Seq<Event>, f: spec_fn(Event) -> int)
    requires
        s1.to_multiset() == s2.to_multiset(),
    ensures
        wcount(s1, f) == wcount(s2, f),
    decreases s1.len(),
{
    broadcast use group_to_multiset_ensures;

    if s1.len() == 0 {
        assert(s1.to_multiset().len() == s1.len());
        assert(s2.to_multiset().len() == s2.len());
    } else {
        let x = s1[0];
        assert(s1.to_multiset().contains(x));
        assert(s2.to_multiset().contains(x));
        assert(s2.contains(x));
        let i = choose|i: int| 0 <= i < s2.len() && s2[i] == x;
        assert(s1.remove(0).to_multiset() =~= s1.to_multiset().remove(x));
        assert(s2.remove(i).to_multiset() =~= s2.to_multiset().remove(x));
        assert(s1.remove(0) =~= s1.drop_first());
        lemma_wcount_multiset(s1.drop_first(), s2.remove(i), f);
        lemma_wcount_remove(s2, i, f);
    }
}

proof fn lemma_wcount_singleton(x: Event, f: spec_fn(Event) -> int)
    ensures
        wcount(seq![x], f) == f(x),
{
    assert(seq![x].drop_first() =~= Seq::<Event>::empty());
    assert(wcount(Seq::<Event>::empty(), f) == 0);
}

proof fn lemma_wcount_pair(x: Event, y: Event, f: spec_fn(Event) -> int)
    ensures
        wcount(seq![x, y], f) == f(x) + f(y),
{
    assert(seq![x, y].drop_first() =~= seq![y]);
    lemma_wcount_singleton(y, f);
}

/// One where the element counts and is zero elsewhere.
spec fn ind_open() -> spec_fn(Event) -> int {
    |e: Event| if !e.close { 1int } else { 0int }
}

spec fn ind_close() -> spec_fn(Event) -> int {
    |e: Event| if e.close { 1int } else { 0int }
}

spec fn ind_open_le(b: Event) -> spec_fn(Event) -> int {
    |e: Event| if !e.close && event_le(e, b) { 1int } else { 0int }
}

spec fn ind_close_le(b: Event) -> spec_fn(Event) -> int {
    |e: Event| if e.close && event_le(e, b) { 1int } else { 0int }
}

/// The running count after `k` events is the opens minus the closes among
/// the first `k`.
proof fn lemma_count_as_wcount(ev: Seq<Event>, k: int)
    requires
        0 <= k <= ev.len(),
    ensures
        count_after(ev, k) == wcount(ev.take(k), ind_open()) - wcount(ev.take(k), ind_close()),
    decreases k,
{
    if k == 0 {
        assert(ev.take(0) =~= Seq::<Event>::empty());
    } else {
        lemma_count_as_wcount(ev, k - 1);
        assert(ev.take(k) =~= ev.take(k - 1) + seq![ev[k - 1]]);
        lemma_wcount_concat(ev.take(k - 1), seq![ev[k - 1]], ind_open());
        lemma_wcount_concat(ev.take(k - 1), seq![ev[k - 1]], ind_close());
        lemma_wcount_singleton(ev[k - 1], ind_open());
        lemma_wcount_singleton(ev[k - 1], ind_close());
    }
}

/// Among the events of well-formed issues, the closes up to any cutoff are
/// at most the opens up to it: every close has its matching open no later.
proof fn lemma_closes_at_most_opens(issues: Seq<Issue>, b: Event)
    requires
        forall|i: int|
            0 <= i < issues.len() ==> ((#[trigger] issues[i]).closed_at matches Some(t)
                ==> issues[i].created_at <= t),
    ensures
        wcount(events_of(issues), ind_close_le(b)) <= wcount(events_of(issues), ind_open_le(b)),
    decreases issues.len(),
{
    if issues.len() > 0 {
        let head = issue_events(issues[0]);
        let rest = events_of(issues.drop_first());
        lemma_wcount_concat(head, rest, ind_close_le(b));
        lemma_wcount_concat(head, rest, ind_open_le(b));
        assert(forall|i: int|
            0 <= i < issues.drop_first().len() ==> #[trigger] issues.drop_first()[i] == issues[i
                + 1]);
        lemma_closes_at_most_opens(issues.drop_first(), b);
        match issues[0].closed_at {
            Some(t) => {
                let open = Event { time: issues[0].created_at, close: false };
                let close = Event { time: t, close: true };
                assert(head =~= seq![open, close]);
                lemma_wcount_pair(open, close, ind_close_le(b));
                lemma_wcount_pair(open, close, ind_open_le(b));
                assert(issues[0].created_at <= t);
                if event_le(close, b) {
                    assert(event_le(open, close));
                    assert(event_le(open, b));
                }
            },
            None => {
                let open = Event { time: issues[0].created_at, close: false };
                assert(head =~= seq![open]);
                lemma_wcount_singleton(open, ind_close_le(b));
                lemma_wcount_singleton(open, ind_open_le(b));
            },
        }
    }
}

/// The open-issue count never dips below zero: when no issue closes before
/// it was created, every prefix of the canonically sorted event sequence has
/// at least as many opens as closes. At equal timestamps the open is applied
/// first, so a zero-duration issue counts up before it counts down.
pub proof fn lemma_count_never_negative(issues: Seq<Issue>, k: int)
    requires
        forall|i: int|
            0 <= i < issues.len() ==> ((#[trigger] issues[i]).closed_at matches Some(t)
                ==> issues[i].created_at <= t),
        0 <= k <= events_of(issues).sort_by(event_leq()).len(),
    ensures
        count_after(events_of(issues).sort_by(event_leq()), k) >= 0,
    decreases k,
{
    lemma_event_le_total();
    events_of(issues).lemma_sort_by_ensures(event_leq());
    let ev = events_of(issues).sort_by(event_leq());
    if k == 0 {
    } else {
        lemma_count_never_negative(issues, k - 1);
        if !ev[k - 1].close {
            assert(count_after(ev, k) == count_after(ev, k - 1) + 1);
        } else {
            let b = ev[k - 1];
            lemma_count_as_wcount(ev, k);
            // Every event in the prefix is at most b, so counting with the
            // cutoff does not change the prefix counts.
            assert(forall|i: int| 0 <= i < k ==> event_leq()(#[trigger] ev.take(k)[i], b));
            assert(forall|i: int|
                0 <= i < k ==> ind_open()(#[trigger] ev.take(k)[i]) == ind_open_le(b)(
                    ev.take(k)[i],
                ));
            assert(forall|i: int|
                0 <= i < k ==> ind_close()(#[trigger] ev.take(k)[i]) == ind_close_le(b)(
                    ev.take(k)[i],
                ));
            lemma_wcount_pointwise(ev.take(k), ind_open(), ind_open_le(b));
            lemma_wcount_pointwise(ev.take(k), ind_close(), ind_close_le(b));
            // No open at most b sits in the suffix: it would both follow and
            // precede the close b, so it would equal b, yet b is a close.
            assert(ev =~= ev.take(k) + ev.skip(k));
            lemma_wcount_concat(ev.take(k), ev.skip(k), ind_open_le(b));
            lemma_wcount_concat(ev.take(k), ev.skip(k), ind_close_le(b));
            assert(forall|i: int|
                0 <= i < ev.skip(k).len() ==> #[trigger] ev.skip(k)[i] == ev[k + i]);
            assert forall|i: int| 0 <= i < ev.skip(k).len() implies ind_open_le(b)(
                #[trigger] ev.skip(k)[i],
            ) == 0 by {
                let e = ev.skip(k)[i];
                if !e.close && event_le(e, b) {
                    assert(event_leq()(ev[k - 1], ev[k + i]));
                    assert(event_le(b, e));
                    assert(e == b);
                }
            }
            lemma_wcount_nonneg_zero(ev.skip(k), ind_open_le(b));
            assert forall|i: int| 0 <= i < ev.skip(k).len() implies ind_close_le(b)(
                #[trigger] ev.skip(k)[i],
            ) >= 0 by {}
            lemma_wcount_nonneg(ev.skip(k), ind_close_le(b));
            // Transport the whole-sequence bound over the sorted permutation.
            lemma_wcount_multiset(ev, events_of(issues), ind_open_le(b));
            lemma_wcount_multiset(ev, events_of(issues), ind_close_le(b));
            lemma_closes_at_most_opens(issues, b);
        }
    }
}

proof fn lemma_wcount_nonneg(s: Seq<Event>, f: spec_fn(Event) -> int)
    requires
        forall|i: int| 0 <= i < s.len() ==> f(#[trigger] s[i]) >= 0,
    ensures
        wcount(s, f) >= 0,
    decreases s.len(),
{
    if s.len() > 0 {
        assert(forall|i: int|
            0 <= i < s.drop_first().len() ==> #[trigger] s.drop_first()[i] == s[i + 1]);
        lemma_wcount_nonneg(s.drop_first(), f);
    }
}

proof fn lemma_wcount_nonneg_zero(s: Seq<Event>, f: spec_fn(Event) -> int)
    requires
        forall|i: int| 0 <= i < s.len() ==> f(#[trigger] s[i]) == 0,
    ensures
        wcount(s, f) == 0,
    decreases s.len(),
{
    if s.len() > 0 {
        assert(forall|i: int|
            0 <= i < s.drop_first().len() ==> #[trigger] s.drop_first()[i] == s[i + 1]);
        lemma_wcount_nonneg_zero(s.drop_first(), f);
    }
}

/// No entry of the aggregated series is negative when no issue closes
/// before it was created.
pub proof fn lemma_series_never_negative(issues: Seq<Issue>, k: int)
    requires
        forall|i: int|
            0 <= i < issues.len() ==> ((#[trigger] issues[i]).closed_at matches Some(t)
                ==> issues[i].created_at <= t),
        issues.len() <= 0x3fff_ffff_ffff_ffff,
        0 <= k < spec_series(issues).len(),
    ensures
        spec_series(issues)[k].1 >= 0,
{
    broadcast use group_to_multiset_ensures;

    lemma_event_le_total();
    events_of(issues).lemma_sort_by_ensures(event_leq());
    let ev = events_of(issues).sort_by(event_leq());
    lemma_count_never_negative(issues, k + 1);
    lemma_events_len(issues);
    assert(ev.len() == ev.to_multiset().len());
    assert(events_of(issues).len() == events_of(issues).to_multiset().len());
    lemma_count_after_bound(ev, k + 1);
    assert(0 <= count_after(ev, k + 1) <= ev.len());
    assert(spec_series(issues)[k].1 == count_after(ev, k + 1) as i64);
}

proof fn lemma_events_len(issues: Seq<Issue>)
    ensures
        events_of(issues).len() <= 2 * issues.len(),
    decreases issues.len(),
{
    if issues.len() > 0 {
        lemma_events_len(issues.drop_first());
    }
}

fn event_le_exec(a: &Event, b: &Event) -> (r: bool)
    ensures
        r == event_le(*a, *b),
{
    a.time < b.time || (a.time == b.time && (!a.close || b.close))
}

fn sort_events(ev: Vec<Event>) -> (r: Vec<Event>)
    ensures
        sorted_by(r@, event_leq()),
        r@.to_multiset() == ev@.to_multiset(),
{
    proof {
        broadcast use group_to_multiset_ensures;

    }
    let ghost orig = ev@;
    let mut rest = ev;
    let mut out: Vec<Event> = Vec::new();
    while rest.len() > 0
        invariant
            out@.to_multiset().add(rest@.to_multiset()) == orig.to_multiset(),
            sorted_by(out@, event_leq()),
            forall|i: int, j: int|
                0 <= i < out@.len() && 0 <= j < rest@.len() ==> event_le(out@[i], rest@[j]),
        decreases rest@.len(),
    {
        proof {
            broadcast use group_to_multiset_ensures;

        }
        let mut mi: usize = 0;
        let mut k: usize = 1;
        while k < rest.len()
            invariant
                0 <= mi < rest@.len(),
                1 <= k <= rest@.len(),
                forall|t: int| 0 <= t < k ==> event_le(rest@[mi as int], rest@[t]),
            decreases rest@.len() - k,
        {
            if event_le_exec(&rest[k], &rest[mi]) {
                mi = k;
            }
            k = k + 1;
        }
        let ghost pre = rest@;
        let x = rest.remove(mi);
        proof {
            assert(pre.remove(mi as int).to_multiset() =~= pre.to_multiset().remove(x));
            assert(out@.push(x).to_multiset() =~= out@.to_multiset().insert(x));
            assert(out@.push(x).to_multiset().add(rest@.to_multiset()) =~= orig.to_multiset());
            assert forall|j: int| 0 <= j < rest@.len() implies event_le(x, rest@[j]) by {
                if j < mi {
                    assert(rest@[j] == pre[j]);
                } else {
                    assert(rest@[j] == pre[j + 1]);
                }
            }
        }
        out.push(x);
    }
    proof {
        assert(rest@.to_multiset() =~= Multiset::<Event>::empty());
        assert(out@.to_multiset() =~= orig.to_multiset());
    }
    out
}

/// Folds a list of fetched issues into the open-issue time series: one entry
/// per event, ordered by timestamp with opens before closes at equal
/// timestamps, each entry carrying the running open count after that event.
pub fn aggregate(issues: &Vec<Issue>) -> (r: Vec<(i64, i64)>)
    requires
        issues@.len() <= 0x3fff_ffff_ffff_ffff,
    ensures
        r@ == spec_series(issues@),
{
    let mut events: Vec<Event> = Vec::new();
    let mut i: usize = 0;
    while i < issues.len()
        invariant
            i <= issues@.len(),
            events@ == events_of(issues@.subrange(0, i as int)),
            events@.len() <= 2 * i,
        decreases issues@.len() - i,
    {
        let ghost pre = issues@.subrange(0, i as int);
        let issue = issues[i];
        events.push(Event { time: issue.created_at, close: false });
        match issue.closed_at {
            Some(t) => {
                events.push(Event { time: t, close: true });
            },
            None => {},
        }
        proof {
            lemma_events_of_snoc(pre, issue);
            assert(issues@.subrange(0, i + 1) =~= pre.push(issue));
            assert(events@ =~= events_of(issues@.subrange(0, i + 1)));
        }
        i = i + 1;
    }
    proof {
        assert(issues@.subrange(0, issues@.len() as int) =~= issues@);
    }
    let sorted = sort_events(events);
    proof {
        lemma_event_le_total();
        events_of(issues@).lemma_sort_by_ensures(event_leq());
        lemma_sorted_unique(
            sorted@,
            events_of(issues@).sort_by(event_leq()),
            event_leq(),
        );
        assert(sorted@ =~= events_of(issues@).sort_by(event_leq()));
        // The sort preserves the multiset, so also the length, which stays
        // within the running count's accumulator bound.
        assert(sorted@.to_multiset().len() == sorted@.len()) by {
            broadcast use group_to_multiset_ensures;

        }
        assert(events_of(issues@).to_multiset().len() == events_of(issues@).len()) by {
            broadcast use group_to_multiset_ensures;

        }
    }
    running_counts(&sorted)
}

proof fn lemma_count_after_bound(ev: Seq<Event>, k: int)
    requires
        0 <= k,
    ensures
        -k <= count_after(ev, k) <= k,
    decreases k,
{
    if k > 0 {
        lemma_count_after_bound(ev, k - 1);
    }
}

fn running_counts(ev: &Vec<Event>) -> (r: Vec<(i64, i64)>)
    requires
        ev@.len() <= 0x7fff_ffff_ffff_fffe,
    ensures
        r@ == series_of(ev@),
{
    let mut r: Vec<(i64, i64)> = Vec::new();
    let mut count: i64 = 0;
    let mut i: usize = 0;
    while i < ev.len()
        invariant
            i <= ev@.len(),
            ev@.len() <= 0x7fff_ffff_ffff_fffe,
            r@.len() == i,
            count == count_after(ev@, i as int),
            forall|j: int| 0 <= j < i ==> r@[j] == (ev@[j].time, count_after(ev@, j + 1) as i64),
        decreases ev@.len() - i,
    {
        proof {
            lemma_count_after_bound(ev@, i as int);
        }
        if ev[i].close {
            count = count - 1;
        } else {
            count = count + 1;
        }
        r.push((ev[i].time, count));
        i = i + 1;
    }
    proof {
        assert(r@ =~= series_of(ev@));
    }
    r
}

} // verus!
