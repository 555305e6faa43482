//! The mathematical model of the sliding-window rate limiter.
//!
//! Times are readings of a monotonic clock in nanoseconds. A request recorded
//! at time `t` still counts against the limit at time `now` while no more than
//! `window` has passed since it, that is while `now - t <= window`.
use vstd::prelude::*;

verus! {

/// A request recorded at `t` still counts at `now`.
pub open spec fn is_live(t: u128, now: u128, window: u128) -> bool {
    now - t <= window
}

/// The recorded requests that remain once the leading ones that have left
/// the window ending at `now` are dropped.
pub open spec fn prune(reqs: Seq<u128>, now: u128, window: u128) -> Seq<u128>
    decreases reqs.len(),
{
    if reqs.len() > 0 && !is_live(reqs[0], now, window) {
        prune(reqs.drop_first(), now, window)
    } else {
        reqs
    }
}

/// Whether a request at `now` is accepted: fewer than `limit` requests are
/// still live, and there is `room` for it apart from the rate limit.
pub open spec fn step_accepts(reqs: Seq<u128>, now: u128, window: u128, limit: usize, room: bool) -> bool {
    prune(reqs, now, window).len() < limit && room
}

/// The recorded requests after one request at `now`.
pub open spec fn tracker_step(reqs: Seq<u128>, now: u128, window: u128, limit: usize, room: bool) -> Seq<u128> {
    if step_accepts(reqs, now, window, limit, room) {
        prune(reqs, now, window).push(now)
    } else {
        prune(reqs, now, window)
    }
}

/// The recorded requests after a run of requests that starts from an empty
/// tracker; each event is the time of a request and whether it had room.
pub open spec fn run_requests(events: Seq<(u128, bool)>, window: u128, limit: usize) -> Seq<u128>
    decreases events.len(),
{
    if events.len() == 0 {
        Seq::empty()
    } else {
        let prev = run_requests(events.drop_last(), window, limit);
        tracker_step(prev, events.last().0, window, limit, events.last().1)
    }
}

/// The times of the requests accepted during a run, in order.
pub open spec fn run_accepted(events: Seq<(u128, bool)>, window: u128, limit: usize) -> Seq<u128>
    decreases events.len(),
{
    if events.len() == 0 {
        Seq::empty()
    } else {
        let prev = run_accepted(events.drop_last(), window, limit);
        let reqs = run_requests(events.drop_last(), window, limit);
        if step_accepts(reqs, events.last().0, window, limit, events.last().1) {
            prev.push(events.last().0)
        } else {
            prev
        }
    }
}

/// The number of times in `s` that lie in `[lo, hi]`.
pub open spec fn count_between(s: Seq<u128>, lo: int, hi: int) -> nat
    decreases s.len(),
{
    if s.len() == 0 {
        0
    } else {
        count_between(s.drop_last(), lo, hi) + if lo <= s.last() && s.last() <= hi { 1nat } else { 0nat }
    }
}

/// The number of times in `s` that are at least `lo`.
pub open spec fn count_at_least(s: Seq<u128>, lo: int) -> nat
    decreases s.len(),
{
    if s.len() == 0 {
        0
    } else {
        count_at_least(s.drop_last(), lo) + if lo <= s.last() { 1nat } else { 0nat }
    }
}

/// The number of times in `s` that lie in the window from `lo` to
/// `lo + window`, both ends included.
pub open spec fn count_in_window(s: Seq<u128>, lo: int, window: u128) -> nat {
    count_between(s, lo, lo + window)
}

pub open spec fn is_sorted(s: Seq<u128>) -> bool {
    forall|i: int, j: int| 0 <= i <= j < s.len() ==> s[i] <= s[j]
}

pub open spec fn bounded_by(s: Seq<u128>, b: u128) -> bool {
    forall|i: int| 0 <= i < s.len() ==> s[i] <= b
}

/// Recorded request times in order, none later than the clock's latest
/// reading: what a tracker read only through its clock holds.
pub open spec fn is_timeline(requests: Seq<u128>, latest: u128) -> bool {
    is_sorted(requests) && bounded_by(requests, latest)
}

pub open spec fn times_nondecreasing(events: Seq<(u128, bool)>) -> bool {
    forall|i: int, j: int| 0 <= i <= j < events.len() ==> events[i].0 <= events[j].0
}

/// Pruning never adds requests.
pub proof fn lemma_prune_shrinks(s: Seq<u128>, now: u128, window: u128)
    ensures
        prune(s, now, window).len() <= s.len(),
    decreases s.len(),
{
    if s.len() > 0 && !is_live(s[0], now, window) {
        lemma_prune_shrinks(s.drop_first(), now, window);
    }
}

proof fn lemma_count_drop_first(s: Seq<u128>, lo: int)
    requires
        s.len() > 0,
    ensures
        count_at_least(s, lo) == count_at_least(s.drop_first(), lo) + if lo <= s[0] { 1nat } else { 0nat },
    decreases s.len(),
{
    if s.len() > 1 {
        lemma_count_drop_first(s.drop_last(), lo);
        assert(s.drop_last().drop_first() =~= s.drop_first().drop_last());
    } else {
        assert(s.drop_first() =~= Seq::<u128>::empty());
        assert(s.drop_last() =~= Seq::<u128>::empty());
    }
}

proof fn lemma_count_all(s: Seq<u128>, lo: int)
    requires
        forall|i: int| 0 <= i < s.len() ==> lo <= s[i],
    ensures
        count_at_least(s, lo) == s.len(),
    decreases s.len(),
{
    if s.len() > 0 {
        lemma_count_all(s.drop_last(), lo);
    }
}

proof fn lemma_between_le_at_least(s: Seq<u128>, lo: int, hi: int)
    ensures
        count_between(s, lo, hi) <= count_at_least(s, lo),
    decreases s.len(),
{
    if s.len() > 0 {
        lemma_between_le_at_least(s.drop_last(), lo, hi);
    }
}

proof fn lemma_at_least_antitone(s: Seq<u128>, lo1: int, lo2: int)
    requires
        lo1 <= lo2,
    ensures
        count_at_least(s, lo2) <= count_at_least(s, lo1),
    decreases s.len(),
{
    if s.len() > 0 {
        lemma_at_least_antitone(s.drop_last(), lo1, lo2);
    }
}

/// Pruning a sorted sequence keeps a suffix of it, of exactly the requests
/// that are live at `now`, and changes no count of times at or above the
/// start of the window.
pub proof fn lemma_prune_sorted(s: Seq<u128>, now: u128, window: u128)
    requires
        is_sorted(s),
    ensures
        prune(s, now, window).len() <= s.len(),
        prune(s, now, window) =~= s.subrange(s.len() - prune(s, now, window).len(), s.len() as int),
        prune(s, now, window).len() == count_at_least(s, now - window),
        forall|lo: int| now - window <= lo ==> count_at_least(prune(s, now, window), lo) == count_at_least(s, lo),
    decreases s.len(),
{
    if s.len() > 0 && !is_live(s[0], now, window) {
        let t = s.drop_first();
        assert(is_sorted(t));
        lemma_prune_sorted(t, now, window);
        lemma_count_drop_first(s, now - window);
        assert forall|lo: int| now - window <= lo implies count_at_least(prune(s, now, window), lo)
            == count_at_least(s, lo) by {
            lemma_count_drop_first(s, lo);
        }
    } else {
        assert(s.subrange(0, s.len() as int) =~= s);
        lemma_count_all(s, now - window);
    }
}

/// Pruning keeps a timeline a timeline.
pub proof fn lemma_prune_keeps_timeline(s: Seq<u128>, now: u128, window: u128, latest: u128)
    requires
        is_timeline(s, latest),
    ensures
        is_timeline(prune(s, now, window), latest),
{
    lemma_prune_sorted(s, now, window);
    let p = prune(s, now, window);
    assert forall|i: int, j: int| 0 <= i <= j < p.len() implies p[i] <= p[j] by {
        assert(p[i] == s[s.len() - p.len() + i]);
        assert(p[j] == s[s.len() - p.len() + j]);
    }
    assert forall|i: int| 0 <= i < p.len() implies p[i] <= latest by {
        assert(p[i] == s[s.len() - p.len() + i]);
    }
}

/// Recording a request at a time no earlier than the latest reading keeps a
/// timeline a timeline, up to that time.
pub proof fn lemma_push_keeps_timeline(s: Seq<u128>, latest: u128, now: u128)
    requires
        is_timeline(s, latest),
        latest <= now,
    ensures
        is_timeline(s.push(now), now),
        is_timeline(s, now),
{
    let t = s.push(now);
    assert forall|i: int, j: int| 0 <= i <= j < t.len() implies t[i] <= t[j] by {
        if j < s.len() {
            assert(t[i] == s[i] && t[j] == s[j]);
        } else if i < s.len() {
            assert(t[i] == s[i]);
        }
    }
    assert forall|i: int| 0 <= i < t.len() implies t[i] <= now by {
        if i < s.len() {
            assert(t[i] == s[i]);
        }
    }
}

/// On a timeline, the requests that pruning keeps are exactly the live
/// ones: those recorded within the window that ends at `now`.
pub proof fn lemma_prune_is_live_filter(s: Seq<u128>, now: u128, window: u128)
    requires
        is_sorted(s),
    ensures
        prune(s, now, window) == s.filter(|t: u128| is_live(t, now, window)),
    decreases s.len(),
{
    let live = |t: u128| is_live(t, now, window);
    if s.len() > 0 && !is_live(s[0], now, window) {
        let t = s.drop_first();
        assert(is_sorted(t));
        lemma_prune_is_live_filter(t, now, window);
        assert(s =~= seq![s[0]] + t);
        Seq::filter_distributes_over_add(seq![s[0]], t, live);
        assert(seq![s[0]].filter(live) =~= Seq::<u128>::empty()) by {
            reveal(Seq::filter);
            let one = seq![s[0]];
            assert(one.drop_last() =~= Seq::<u128>::empty());
            assert(one.last() == s[0]);
            assert(!live(s[0]));
            assert(Seq::<u128>::empty().filter(live) =~= Seq::<u128>::empty());
        }
        assert(Seq::<u128>::empty() + t.filter(live) =~= t.filter(live));
    } else {
        // every request from the first on is live
        assert forall|i: int| 0 <= i < s.len() implies #[trigger] live(s[i]) by {
            assert(s[0] <= s[i]);
        }
        lemma_filter_all(s, live);
    }
}

/// Filtering by a predicate that holds everywhere keeps the sequence.
proof fn lemma_filter_all(s: Seq<u128>, p: spec_fn(u128) -> bool)
    requires
        forall|i: int| 0 <= i < s.len() ==> #[trigger] p(s[i]),
    ensures
        s.filter(p) == s,
    decreases s.len(),
{
    reveal(Seq::filter);
    if s.len() > 0 {
        lemma_filter_all(s.drop_last(), p);
        assert(s.drop_last().push(s.last()) =~= s);
    } else {
        assert(s.filter(p) =~= s);
    }
}

/// What holds after every run of requests with nondecreasing times: the
/// recorded requests are sorted, bounded by the last time, and agree with the
/// accepted ones on every count from the start of the current window on; and
/// no window of length `window` holds more than `limit` accepted requests.
proof fn lemma_run_invariant(events: Seq<(u128, bool)>, window: u128, limit: usize)
    requires
        times_nondecreasing(events),
    ensures
        is_sorted(run_requests(events, window, limit)),
        events.len() > 0 ==> bounded_by(run_requests(events, window, limit), events.last().0),
        events.len() > 0 ==> bounded_by(run_accepted(events, window, limit), events.last().0),
        events.len() == 0 ==> run_accepted(events, window, limit).len() == 0,
        events.len() > 0 ==> forall|lo: int| events.last().0 - window <= lo ==>
            count_at_least(#[trigger] run_requests(events, window, limit), lo)
                == count_at_least(run_accepted(events, window, limit), lo),
        forall|lo: int| #[trigger] count_in_window(run_accepted(events, window, limit), lo, window) <= limit,
    decreases events.len(),
{
    let reqs = run_requests(events, window, limit);
    let acc = run_accepted(events, window, limit);
    if events.len() == 0 {
        assert forall|lo: int| #[trigger] count_in_window(acc, lo, window) <= limit by {}
    } else {
        let prev_events = events.drop_last();
        assert(times_nondecreasing(prev_events));
        lemma_run_invariant(prev_events, window, limit);
        let prev_reqs = run_requests(prev_events, window, limit);
        let prev_acc = run_accepted(prev_events, window, limit);
        let now = events.last().0;
        let room = events.last().1;
        let live = prune(prev_reqs, now, window);
        lemma_prune_sorted(prev_reqs, now, window);
        if prev_events.len() > 0 {
            assert(prev_events.last().0 <= now);
        }
        let accepts = step_accepts(prev_reqs, now, window, limit, room);
        // sortedness and the bound by `now`
        assert(bounded_by(live, now)) by {
            assert forall|i: int| 0 <= i < live.len() implies live[i] <= now by {
                assert(live[i] == prev_reqs[prev_reqs.len() - live.len() + i]);
            }
        }
        assert(is_sorted(live)) by {
            assert forall|i: int, j: int| 0 <= i <= j < live.len() implies live[i] <= live[j] by {
                assert(live[i] == prev_reqs[prev_reqs.len() - live.len() + i]);
                assert(live[j] == prev_reqs[prev_reqs.len() - live.len() + j]);
            }
        }
        if accepts {
            assert(reqs =~= live.push(now));
            assert(acc =~= prev_acc.push(now));
        } else {
            assert(reqs =~= live);
            assert(acc =~= prev_acc);
        }
        assert(bounded_by(acc, now)) by {
            assert forall|i: int| 0 <= i < acc.len() implies acc[i] <= now by {
                if i < prev_acc.len() {
                    assert(acc[i] == prev_acc[i]);
                }
            }
        }
        // the counts agree from the start of the window on
        assert forall|lo: int| now - window <= lo implies count_at_least(reqs, lo) == count_at_least(acc, lo) by {
            if prev_events.len() > 0 {
                assert(prev_events.last().0 - window <= lo);
                assert(count_at_least(prev_reqs, lo) == count_at_least(prev_acc, lo));
            }
            if accepts {
                assert(reqs.drop_last() =~= live);
                assert(acc.drop_last() =~= prev_acc);
            }
        }
        // no window holds more than `limit` accepted requests
        assert forall|lo: int| #[trigger] count_in_window(acc, lo, window) <= limit by {
            assert(count_in_window(prev_acc, lo, window) <= limit);
            if accepts {
                assert(acc.drop_last() =~= prev_acc);
                if lo <= now && now <= lo + window {
                    lemma_between_le_at_least(prev_acc, lo, lo + window);
                    lemma_at_least_antitone(prev_acc, now - window, lo);
                    if prev_events.len() > 0 {
                        assert(count_at_least(prev_reqs, now - window) == count_at_least(prev_acc, now - window));
                    }
                }
            }
        }
    }
}

/// The rate limit: when requests arrive with nondecreasing times, no window
/// of length `window` (from `lo` to `lo + window`, both ends included) ever
/// holds more than `limit` accepted requests, whichever of them had room.
pub proof fn lemma_rate_limit_holds(events: Seq<(u128, bool)>, window: u128, limit: usize, lo: int)
    requires
        times_nondecreasing(events),
    ensures
        count_in_window(run_accepted(events, window, limit), lo, window) <= limit,
{
    lemma_run_invariant(events, window, limit);
}

} // verus!
