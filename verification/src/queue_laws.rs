//! Laws of the rate-limited queue over runs of enqueue attempts, stated
//! over the effect that `RateLimitedQueue::enqueue_at` and `enqueue`
//! promise for each attempt.
use vstd::prelude::*;

use crate::rate_limit::{count_between, count_in_window, lemma_rate_limit_holds, run_accepted, run_requests, times_nondecreasing};
use crate::rate_limited_queue::{enqueue_effect, takes_from_front, EnqueueResult, QueueView};

verus! {

/// One enqueue attempt: the queue before and after it, the item offered,
/// the time of the attempt and its outcome, and the items taken out of the
/// queue since the previous attempt (none before the first).
pub struct Attempt<T> {
    pub before: QueueView<T>,
    pub after: QueueView<T>,
    pub item: T,
    pub now: u128,
    pub result: EnqueueResult,
    pub taken_before: Seq<T>,
}

/// Each attempt has the effect that the queue promises, and between two
/// attempts the tracker and the configuration stay as the earlier attempt
/// left them (items may be taken out in between).
pub open spec fn is_attempt_run<T>(a: Seq<Attempt<T>>) -> bool {
    &&& forall|i: int| 0 <= i < a.len() ==> enqueue_effect(
        #[trigger] a[i].before,
        a[i].after,
        a[i].item,
        a[i].now,
        a[i].result,
    )
    &&& forall|i: int| 0 < i < a.len() ==> {
        &&& (#[trigger] a[i].before).requests == a[i - 1].after.requests
        &&& a[i].before.max_capacity == a[i - 1].after.max_capacity
        &&& a[i].before.rate_limit == a[i - 1].after.rate_limit
        &&& a[i].before.time_window == a[i - 1].after.time_window
    }
}

/// Between two attempts, items are only taken out of the front, as
/// `dequeue` and `dequeue_all` do (`takes_from_front`, composed by
/// `lemma_takes_compose`).
pub open spec fn takes_between<T>(a: Seq<Attempt<T>>) -> bool {
    forall|i: int|
        0 < i < a.len() ==> takes_from_front(a[i - 1].after, a[i].before, #[trigger] a[i].taken_before)
}

/// The items taken out between the attempts, in the order they came out.
pub open spec fn taken_between<T>(a: Seq<Attempt<T>>) -> Seq<T>
    decreases a.len(),
{
    if a.len() <= 1 {
        Seq::empty()
    } else {
        taken_between(a.drop_last()) + a.last().taken_before
    }
}

/// Each attempt reads the queue's clock, which gives no time earlier than
/// the latest one, and nothing else moves the clock between attempts.
pub open spec fn is_clocked_run<T>(a: Seq<Attempt<T>>) -> bool {
    &&& forall|i: int|
        0 <= i < a.len() ==> (#[trigger] a[i].now) >= a[i].before.latest && a[i].after.latest == a[i].now
    &&& forall|i: int| 0 < i < a.len() ==> (#[trigger] a[i].before).latest == a[i - 1].after.latest
}

/// The times of the attempts, and whether each found room in the queue.
pub open spec fn attempt_events<T>(a: Seq<Attempt<T>>) -> Seq<(u128, bool)> {
    Seq::new(a.len(), |i: int| (a[i].now, a[i].before.items.len() < a[i].before.max_capacity))
}

/// The times of the attempts that succeeded, in order.
pub open spec fn success_times<T>(a: Seq<Attempt<T>>) -> Seq<u128>
    decreases a.len(),
{
    if a.len() == 0 {
        Seq::empty()
    } else if a.last().result == EnqueueResult::Success {
        success_times(a.drop_last()).push(a.last().now)
    } else {
        success_times(a.drop_last())
    }
}

/// The items of the attempts that succeeded, in order.
pub open spec fn success_items<T>(a: Seq<Attempt<T>>) -> Seq<T>
    decreases a.len(),
{
    if a.len() == 0 {
        Seq::empty()
    } else if a.last().result == EnqueueResult::Success {
        success_items(a.drop_last()).push(a.last().item)
    } else {
        success_items(a.drop_last())
    }
}

/// A prefix of a run of attempts is a run of attempts.
proof fn lemma_prefix_is_run<T>(a: Seq<Attempt<T>>, n: int)
    requires
        is_attempt_run(a),
        0 <= n <= a.len(),
    ensures
        is_attempt_run(a.take(n)),
{
    let p = a.take(n);
    assert forall|i: int| 0 <= i < p.len() implies enqueue_effect(
        #[trigger] p[i].before,
        p[i].after,
        p[i].item,
        p[i].now,
        p[i].result,
    ) by {
        assert(p[i] == a[i]);
    }
    assert forall|i: int| 0 < i < p.len() implies {
        &&& (#[trigger] p[i].before).requests == p[i - 1].after.requests
        &&& p[i].before.max_capacity == p[i - 1].after.max_capacity
        &&& p[i].before.rate_limit == p[i - 1].after.rate_limit
        &&& p[i].before.time_window == p[i - 1].after.time_window
    } by {
        assert(p[i] == a[i]);
        assert(p[i - 1] == a[i - 1]);
        assert(a[i].before.requests == a[i - 1].after.requests);
    }
}

/// A run of attempts from a fresh tracker follows the model of the rate
/// limiter: the tracker holds what the model records, and the successes are
/// the requests that the model accepts.
proof fn lemma_run_follows_model<T>(a: Seq<Attempt<T>>)
    requires
        a.len() > 0,
        is_attempt_run(a),
        a[0].before.requests == Seq::<u128>::empty(),
    ensures
        a.last().after.requests == run_requests(attempt_events(a), a[0].before.time_window, a[0].before.rate_limit),
        success_times(a) == run_accepted(attempt_events(a), a[0].before.time_window, a[0].before.rate_limit),
        a.last().after.time_window == a[0].before.time_window,
        a.last().after.rate_limit == a[0].before.rate_limit,
    decreases a.len(),
{
    let w = a[0].before.time_window;
    let l = a[0].before.rate_limit;
    let ev = attempt_events(a);
    let last = a.last();
    assert(enqueue_effect(a[a.len() - 1].before, last.after, last.item, last.now, last.result));
    assert(ev.last() == (last.now, last.before.items.len() < last.before.max_capacity));
    if a.len() == 1 {
        assert(ev.drop_last() =~= Seq::<(u128, bool)>::empty());
        assert(a.drop_last() =~= Seq::<Attempt<T>>::empty());
        assert(run_requests(ev.drop_last(), w, l) == Seq::<u128>::empty());
        assert(success_times(a.drop_last()) == Seq::<u128>::empty());
        assert(run_accepted(ev.drop_last(), w, l) == Seq::<u128>::empty());
    } else {
        let p = a.drop_last();
        lemma_prefix_is_run(a, a.len() - 1);
        assert(p =~= a.take(a.len() - 1));
        lemma_run_follows_model(p);
        assert(attempt_events(p) =~= ev.drop_last());
        assert(p[0] == a[0]);
        assert(p.last() == a[a.len() - 2]);
        assert(a[a.len() - 1].before.requests == a[a.len() - 2].after.requests);
        assert(a[a.len() - 1].before.time_window == a[a.len() - 2].after.time_window);
        assert(a[a.len() - 1].before.rate_limit == a[a.len() - 2].after.rate_limit);
        assert(last.before.requests == run_requests(ev.drop_last(), w, l));
    }
}

/// The rate limit of the queue: over any run of enqueue attempts from a
/// fresh queue whose times do not decrease, no window of the configured
/// length (both ends included) holds more successful attempts than the rate
/// limit, whatever was taken out of the queue between them.
pub proof fn lemma_queue_rate_limit<T>(a: Seq<Attempt<T>>, lo: int)
    requires
        a.len() > 0,
        is_attempt_run(a),
        a[0].before.requests == Seq::<u128>::empty(),
        forall|i: int, j: int| 0 <= i <= j < a.len() ==> a[i].now <= a[j].now,
    ensures
        count_in_window(success_times(a), lo, a[0].before.time_window) <= a[0].before.rate_limit,
{
    lemma_run_follows_model(a);
    let ev = attempt_events(a);
    assert(times_nondecreasing(ev)) by {
        assert forall|i: int, j: int| 0 <= i <= j < ev.len() implies ev[i].0 <= ev[j].0 by {
            assert(ev[i].0 == a[i].now);
            assert(ev[j].0 == a[j].now);
        }
    }
    lemma_rate_limit_holds(ev, a[0].before.time_window, a[0].before.rate_limit, lo);
}

/// The times of a clocked run never decrease.
proof fn lemma_clocked_times<T>(a: Seq<Attempt<T>>, i: int, j: int)
    requires
        is_clocked_run(a),
        0 <= i <= j < a.len(),
    ensures
        a[i].now <= a[j].now,
    decreases j - i,
{
    if i < j {
        lemma_clocked_times(a, i, j - 1);
        assert(a[j].before.latest == a[j - 1].after.latest);
        assert(a[j - 1].after.latest == a[j - 1].now);
        assert(a[j].now >= a[j].before.latest);
    }
}

/// The rate limit over calls of `RateLimitedQueue::enqueue`: those calls
/// read the queue's clock, which never goes back, so over any run of them
/// from a fresh queue no window of the configured length holds more
/// successful attempts than the rate limit, whatever was taken out of the
/// queue between them.
pub proof fn lemma_clocked_queue_rate_limit<T>(a: Seq<Attempt<T>>, lo: int)
    requires
        a.len() > 0,
        is_attempt_run(a),
        is_clocked_run(a),
        a[0].before.requests == Seq::<u128>::empty(),
    ensures
        count_in_window(success_times(a), lo, a[0].before.time_window) <= a[0].before.rate_limit,
{
    assert forall|i: int, j: int| 0 <= i <= j < a.len() implies a[i].now <= a[j].now by {
        lemma_clocked_times(a, i, j);
    }
    lemma_queue_rate_limit(a, lo);
}

/// The budget of each success: over any run of `enqueue` calls from a fresh
/// queue, for each attempt that succeeded, the successful attempts up to and
/// including it whose times lie within the window ending at its time are at
/// most the rate limit.
pub proof fn lemma_success_budget<T>(a: Seq<Attempt<T>>, i: int)
    requires
        is_attempt_run(a),
        is_clocked_run(a),
        0 <= i < a.len(),
        a[0].before.requests == Seq::<u128>::empty(),
        a[i].result == EnqueueResult::Success,
    ensures
        count_between(success_times(a.take(i + 1)), a[i].now - a[0].before.time_window, a[i].now as int)
            <= a[0].before.rate_limit,
{
    let p = a.take(i + 1);
    lemma_prefix_is_run(a, i + 1);
    assert(is_clocked_run(p)) by {
        assert forall|k: int| 0 <= k < p.len() implies (#[trigger] p[k].now) >= p[k].before.latest
            && p[k].after.latest == p[k].now by {
            assert(p[k] == a[k]);
            assert(a[k].now >= a[k].before.latest);
        }
        assert forall|k: int| 0 < k < p.len() implies (#[trigger] p[k].before).latest == p[k - 1].after.latest by {
            assert(p[k] == a[k]);
            assert(p[k - 1] == a[k - 1]);
            assert(a[k].before.latest == a[k - 1].after.latest);
        }
    }
    assert(p[0] == a[0]);
    lemma_clocked_queue_rate_limit(p, a[i].now - a[0].before.time_window);
}

/// A prefix of a run whose items are only taken from the front is one too.
proof fn lemma_prefix_takes<T>(a: Seq<Attempt<T>>, n: int)
    requires
        takes_between(a),
        0 <= n <= a.len(),
    ensures
        takes_between(a.take(n)),
{
    let p = a.take(n);
    assert forall|i: int| 0 < i < p.len() implies takes_from_front(
        p[i - 1].after,
        p[i].before,
        #[trigger] p[i].taken_before,
    ) by {
        assert(p[i] == a[i]);
        assert(p[i - 1] == a[i - 1]);
    }
}

/// First in, first out, and nothing lost or repeated: whatever is taken out
/// from the front between attempts, the items taken out followed by what the
/// queue holds at the end are what it held before the first attempt
/// followed by the items of the successful attempts, in the order they were
/// offered.
pub proof fn lemma_queue_fifo<T>(a: Seq<Attempt<T>>)
    requires
        a.len() > 0,
        is_attempt_run(a),
        takes_between(a),
    ensures
        taken_between(a) + a.last().after.items == a[0].before.items + success_items(a),
    decreases a.len(),
{
    let last = a.last();
    assert(enqueue_effect(a[a.len() - 1].before, last.after, last.item, last.now, last.result));
    if a.len() == 1 {
        assert(a.drop_last() =~= Seq::<Attempt<T>>::empty());
        assert(success_items(a.drop_last()) == Seq::<T>::empty());
        assert(Seq::<T>::empty() + last.after.items =~= last.after.items);
        assert(a[0].before.items + Seq::<T>::empty() =~= a[0].before.items);
        assert(a[0].before.items + Seq::<T>::empty().push(last.item) =~= a[0].before.items.push(last.item));
    } else {
        let p = a.drop_last();
        lemma_prefix_is_run(a, a.len() - 1);
        assert(p =~= a.take(a.len() - 1));
        lemma_prefix_takes(a, a.len() - 1);
        lemma_queue_fifo(p);
        assert(p[0] == a[0]);
        assert(p.last() == a[a.len() - 2]);
        let left = a[a.len() - 2].after.items;
        let tb = last.taken_before;
        assert(takes_from_front(a[a.len() - 2].after, a[a.len() - 1].before, a[a.len() - 1].taken_before));
        assert(left == tb + last.before.items);
        let t = taken_between(p);
        let s = success_items(p);
        assert(t + left == a[0].before.items + s);
        assert(taken_between(a) == t + tb);
        if last.result == EnqueueResult::Success {
            assert(last.after.items == last.before.items.push(last.item));
            assert((t + tb) + last.before.items.push(last.item) =~= (t + (tb + last.before.items)).push(
                last.item,
            ));
            assert(a[0].before.items + s.push(last.item) =~= (a[0].before.items + s).push(last.item));
        } else {
            assert(last.after.items == last.before.items);
            assert((t + tb) + last.before.items =~= t + (tb + last.before.items));
        }
    }
}

} // verus!
