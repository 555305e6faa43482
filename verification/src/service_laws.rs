//! Laws of the telemetry service over runs of events, stated over the
//! effect that `TelemetryService::handle` promises for each event.
use vstd::prelude::*;

use crate::rate_limit::{count_in_window, is_timeline, step_accepts, lemma_rate_limit_holds, run_accepted, run_requests, times_nondecreasing};
use crate::rate_limited_queue::{enqueue_effect, EnqueueResult, QueueView};
use crate::sink::{handle_effect, ServiceAction, ServiceEvent, ServiceView};
use crate::telemetry::Telemetry;

verus! {

/// One event handled by the service: the service before and after it, the
/// event and the action asked for.
pub struct ServiceStep {
    pub before: ServiceView,
    pub after: ServiceView,
    pub event: ServiceEvent,
    pub action: ServiceAction,
}

/// Each step has the effect that `handle` promises, and each step starts
/// where the previous one ended.
pub open spec fn is_service_run(a: Seq<ServiceStep>) -> bool {
    &&& forall|i: int|
        0 <= i < a.len() ==> handle_effect(
            (#[trigger] a[i]).before,
            a[i].after,
            a[i].event,
            a[i].action,
        )
    &&& forall|i: int| 0 < i < a.len() ==> (#[trigger] a[i].before) == a[i - 1].after
}

/// The reading that a step received, if any.
pub open spec fn received_by(s: ServiceStep) -> Seq<Telemetry> {
    match s.event {
        ServiceEvent::Received(m) => seq![m],
        _ => Seq::empty(),
    }
}

/// The readings that a step asked to be written, in order.
pub open spec fn written_by(s: ServiceStep) -> Seq<Telemetry> {
    match s.action {
        ServiceAction::Write(items) => items@,
        ServiceAction::Finish(items) => items@,
        _ => Seq::empty(),
    }
}

/// The readings received during a run, in order.
pub open spec fn received(a: Seq<ServiceStep>) -> Seq<Telemetry>
    decreases a.len(),
{
    if a.len() == 0 {
        Seq::empty()
    } else {
        received(a.drop_last()) + received_by(a.last())
    }
}

/// The readings asked to be written during a run, in order.
pub open spec fn written(a: Seq<ServiceStep>) -> Seq<Telemetry>
    decreases a.len(),
{
    if a.len() == 0 {
        Seq::empty()
    } else {
        written(a.drop_last()) + written_by(a.last())
    }
}

/// `w` is `r` with some readings left out: `idx` gives, for each reading of
/// `w`, the place in `r` it comes from, and the places strictly increase.
pub open spec fn is_in_order_subsequence(w: Seq<Telemetry>, r: Seq<Telemetry>, idx: Seq<int>) -> bool {
    &&& idx.len() == w.len()
    &&& forall|k: int| 0 <= k < idx.len() ==> 0 <= #[trigger] idx[k] < r.len() && r[idx[k]] == w[k]
    &&& forall|k: int, l: int| 0 <= k < l < idx.len() ==> idx[k] < idx[l]
}

/// One step keeps what was written followed by the buffer a subsequence of
/// what was there at first followed by what was received.
proof fn lemma_step(wr: Seq<Telemetry>, rec: Seq<Telemetry>, idx: Seq<int>, s: ServiceStep) -> (next: Seq<int>)
    requires
        handle_effect(s.before, s.after, s.event, s.action),
        is_in_order_subsequence(wr + s.before.queue.items, rec, idx),
    ensures
        is_in_order_subsequence((wr + written_by(s)) + s.after.queue.items, rec + received_by(s), next),
{
    let w0 = wr + s.before.queue.items;
    match s.event {
        ServiceEvent::Received(m) => {
            let (now, result) = choose|now: u128, result: EnqueueResult|
                {
                    &&& now >= s.before.queue.latest
                    &&& s.after.queue.latest == now
                    &&& #[trigger] enqueue_effect(s.before.queue, s.after.queue, m, now, result)
                    &&& if result == EnqueueResult::QueueFull && !s.before.notice_pending {
                        &&& s.action is NotifyQueueFull
                        &&& s.after.notice_pending
                    } else {
                        &&& s.action is Continue
                        &&& s.after.notice_pending == s.before.notice_pending
                    }
                };
            assert(written_by(s) =~= Seq::<Telemetry>::empty());
            assert(wr + written_by(s) =~= wr);
            let rec2 = rec + seq![m];
            if result == EnqueueResult::Success {
                assert(s.after.queue.items == s.before.queue.items.push(m));
                let w1 = wr + s.after.queue.items;
                assert(w1 =~= w0.push(m));
                let next = idx.push(rec.len() as int);
                assert forall|k: int| 0 <= k < next.len() implies 0 <= #[trigger] next[k] < rec2.len()
                    && rec2[next[k]] == w1[k] by {
                    if k < idx.len() {
                        assert(next[k] == idx[k]);
                    }
                }
                next
            } else {
                assert(s.after.queue.items == s.before.queue.items);
                assert(wr + s.after.queue.items =~= w0);
                assert forall|k: int| 0 <= k < idx.len() implies 0 <= #[trigger] idx[k] < rec2.len()
                    && rec2[idx[k]] == w0[k] by {}
                idx
            }
        },
        ServiceEvent::SenderClosed => {
            assert(written_by(s) =~= Seq::<Telemetry>::empty());
            assert(received_by(s) =~= Seq::<Telemetry>::empty());
            assert(wr + written_by(s) =~= wr);
            assert(rec + received_by(s) =~= rec);
            idx
        },
        _ => {
            assert(written_by(s) == s.before.queue.items);
            assert(received_by(s) =~= Seq::<Telemetry>::empty());
            assert(rec + received_by(s) =~= rec);
            assert((wr + written_by(s)) + s.after.queue.items =~= w0);
            idx
        },
    }
}

/// The readings asked to be written over a run, followed by what is still
/// buffered, are the readings buffered at first followed by the received
/// ones, with some left out: the places they come from are returned.
proof fn lemma_run_subsequence(a: Seq<ServiceStep>) -> (idx: Seq<int>)
    requires
        a.len() > 0,
        is_service_run(a),
    ensures
        is_in_order_subsequence(
            written(a) + a.last().after.queue.items,
            a[0].before.queue.items + received(a),
            idx,
        ),
    decreases a.len(),
{
    let last = a.last();
    assert(handle_effect(a[a.len() - 1].before, last.after, last.event, last.action));
    if a.len() == 1 {
        let start = a[0].before.queue.items;
        let id = Seq::new(start.len(), |k: int| k);
        assert(a.drop_last() =~= Seq::<ServiceStep>::empty());
        assert(Seq::<Telemetry>::empty() + start =~= start);
        assert(start + Seq::<Telemetry>::empty() =~= start);
        assert(is_in_order_subsequence(Seq::<Telemetry>::empty() + start, start, id));
        let next = lemma_step(Seq::empty(), start, id, last);
        assert(written(a.drop_last()) == Seq::<Telemetry>::empty());
        assert(received(a.drop_last()) == Seq::<Telemetry>::empty());
        assert(a.last() == last);
        assert(written(a) =~= Seq::<Telemetry>::empty() + written_by(last));
        assert(received(a) =~= Seq::<Telemetry>::empty() + received_by(last));
        assert(start + (Seq::<Telemetry>::empty() + received_by(last)) =~= start + received_by(last));
        next
    } else {
        let p = a.drop_last();
        assert(is_service_run(p)) by {
            assert forall|i: int| 0 <= i < p.len() implies handle_effect(
                (#[trigger] p[i]).before,
                p[i].after,
                p[i].event,
                p[i].action,
            ) by {
                assert(p[i] == a[i]);
            }
            assert forall|i: int| 0 < i < p.len() implies (#[trigger] p[i].before) == p[i - 1].after by {
                assert(p[i] == a[i]);
                assert(p[i - 1] == a[i - 1]);
                assert(a[i].before == a[i - 1].after);
            }
        }
        let idx = lemma_run_subsequence(p);
        assert(p[0] == a[0]);
        assert(p.last() == a[a.len() - 2]);
        assert(last.before == a[a.len() - 2].after);
        let next = lemma_step(written(p), a[0].before.queue.items + received(p), idx, last);
        assert(a[0].before.queue.items + received(a) =~= (a[0].before.queue.items + received(p))
            + received_by(last));
        next
    }
}

/// What the sink writes is what it received, in order, each reading at most
/// once: over any run of events, the readings asked to be written are an
/// in-order subsequence of the readings buffered at first followed by the
/// received ones, and so are they followed by what is still buffered.
pub proof fn lemma_written_were_received(a: Seq<ServiceStep>)
    requires
        a.len() > 0,
        is_service_run(a),
    ensures
        exists|idx: Seq<int>|
            is_in_order_subsequence(
                written(a) + a.last().after.queue.items,
                a[0].before.queue.items + received(a),
                idx,
            ),
        exists|idx: Seq<int>| is_in_order_subsequence(written(a), a[0].before.queue.items + received(a), idx),
{
    let w = written(a);
    let r = a[0].before.queue.items + received(a);
    let idx = lemma_run_subsequence(a);
    let full = w + a.last().after.queue.items;
    let part = idx.take(w.len() as int);
    assert forall|k: int| 0 <= k < part.len() implies 0 <= #[trigger] part[k] < r.len() && r[part[k]]
        == w[k] by {
        assert(part[k] == idx[k]);
        assert(full[k] == w[k]);
    }
    assert(is_in_order_subsequence(w, r, part));
    assert(is_in_order_subsequence(full, r, idx));
}

/// The request that a step made of the rate tracker, if any: a received
/// reading is offered at the tracker's time after the step, with room or
/// not in the buffer as it was before.
pub open spec fn request_by(s: ServiceStep) -> Seq<(u128, bool)> {
    match s.event {
        ServiceEvent::Received(_) => seq![
            (s.after.queue.latest, s.before.queue.items.len() < s.before.queue.max_capacity),
        ],
        _ => Seq::empty(),
    }
}

/// The time at which a step took a reading into the buffer, if it did.
pub open spec fn accepted_by(s: ServiceStep) -> Seq<u128> {
    match s.event {
        ServiceEvent::Received(_) => if s.after.queue.items.len() > s.before.queue.items.len() {
            seq![s.after.queue.latest]
        } else {
            Seq::empty()
        },
        _ => Seq::empty(),
    }
}

/// The requests made of the rate tracker during a run, in order.
pub open spec fn service_requests(a: Seq<ServiceStep>) -> Seq<(u128, bool)>
    decreases a.len(),
{
    if a.len() == 0 {
        Seq::empty()
    } else {
        service_requests(a.drop_last()) + request_by(a.last())
    }
}

/// The times at which readings were taken into the buffer during a run, in
/// order.
pub open spec fn service_accepted(a: Seq<ServiceStep>) -> Seq<u128>
    decreases a.len(),
{
    if a.len() == 0 {
        Seq::empty()
    } else {
        service_accepted(a.drop_last()) + accepted_by(a.last())
    }
}

/// The buffer at the end of a run that starts from `start`.
pub open spec fn end_queue(start: QueueView<Telemetry>, a: Seq<ServiceStep>) -> QueueView<Telemetry> {
    if a.len() == 0 {
        start
    } else {
        a.last().after.queue
    }
}

proof fn lemma_prefix_is_service_run(a: Seq<ServiceStep>)
    requires
        a.len() > 0,
        is_service_run(a),
    ensures
        is_service_run(a.drop_last()),
{
    let p = a.drop_last();
    assert forall|i: int| 0 <= i < p.len() implies handle_effect(
        (#[trigger] p[i]).before,
        p[i].after,
        p[i].event,
        p[i].action,
    ) by {
        assert(p[i] == a[i]);
    }
    assert forall|i: int| 0 < i < p.len() implies (#[trigger] p[i].before) == p[i - 1].after by {
        assert(p[i] == a[i]);
        assert(p[i - 1] == a[i - 1]);
        assert(a[i].before == a[i - 1].after);
    }
}

/// Over a run from a tracker with no recorded request, the tracker holds
/// what the model of the rate limiter holds after the run's requests, the
/// readings taken in are the requests the model accepts, the requests come
/// at nondecreasing times no later than the tracker's latest time, and the
/// configuration stays.
proof fn lemma_service_follows_model(start: QueueView<Telemetry>, a: Seq<ServiceStep>)
    requires
        is_service_run(a),
        a.len() > 0 ==> a[0].before.queue == start,
        start.requests == Seq::<u128>::empty(),
    ensures
        end_queue(start, a).time_window == start.time_window,
        end_queue(start, a).rate_limit == start.rate_limit,
        end_queue(start, a).max_capacity == start.max_capacity,
        end_queue(start, a).latest >= start.latest,
        end_queue(start, a).requests == run_requests(service_requests(a), start.time_window, start.rate_limit),
        service_accepted(a) == run_accepted(service_requests(a), start.time_window, start.rate_limit),
        times_nondecreasing(service_requests(a)),
        forall|i: int|
            0 <= i < service_requests(a).len() ==> (#[trigger] service_requests(a)[i]).0 <= end_queue(
                start,
                a,
            ).latest,
    decreases a.len(),
{
    let w = start.time_window;
    let l = start.rate_limit;
    if a.len() == 0 {
        assert(service_requests(a) =~= Seq::<(u128, bool)>::empty());
        return;
    }
    let p = a.drop_last();
    lemma_prefix_is_service_run(a);
    if p.len() > 0 {
        assert(p[0] == a[0]);
    }
    lemma_service_follows_model(start, p);
    let s = a.last();
    let q0 = s.before.queue;
    let q1 = s.after.queue;
    assert(q0 == end_queue(start, p)) by {
        if p.len() > 0 {
            assert(a[a.len() - 1].before == a[a.len() - 2].after);
            assert(p.last() == a[a.len() - 2]);
        }
    }
    assert(handle_effect(a[a.len() - 1].before, s.after, s.event, s.action));
    let ev = service_requests(p);
    let acc = service_accepted(p);
    assert(service_requests(a) == ev + request_by(s));
    assert(service_accepted(a) == acc + accepted_by(s));
    match s.event {
        ServiceEvent::Received(m) => {
            let (now, result) = choose|now: u128, result: EnqueueResult|
                {
                    &&& now >= s.before.queue.latest
                    &&& s.after.queue.latest == now
                    &&& #[trigger] enqueue_effect(s.before.queue, s.after.queue, m, now, result)
                    &&& is_timeline(s.before.queue.requests, s.before.queue.latest) ==> is_timeline(
                        s.after.queue.requests,
                        s.after.queue.latest,
                    )
                    &&& if result == EnqueueResult::QueueFull && !s.before.notice_pending {
                        &&& s.action is NotifyQueueFull
                        &&& s.after.notice_pending
                    } else {
                        &&& s.action is Continue
                        &&& s.after.notice_pending == s.before.notice_pending
                    }
                };
            let room = q0.items.len() < q0.max_capacity;
            let e = (now, room);
            let evs = service_requests(a);
            assert(evs =~= ev.push(e));
            assert(evs.drop_last() =~= ev);
            assert(evs.last() == e);
            let accepts = step_accepts(q0.requests, now, w, l, room);
            if accepts {
                assert(q1.items == q0.items.push(m));
                assert(service_accepted(a) =~= acc.push(now));
            } else {
                assert(q1.items == q0.items);
                assert(service_accepted(a) =~= acc);
            }
            assert forall|i: int, j: int| 0 <= i <= j < evs.len() implies evs[i].0 <= evs[j].0 by {
                if j < ev.len() {
                    assert(evs[i] == ev[i] && evs[j] == ev[j]);
                } else if i < ev.len() {
                    assert(evs[i] == ev[i]);
                    assert(ev[i].0 <= q0.latest);
                }
            }
            assert forall|i: int| 0 <= i < evs.len() implies (#[trigger] evs[i]).0 <= q1.latest by {
                if i < ev.len() {
                    assert(evs[i] == ev[i]);
                    assert(ev[i].0 <= q0.latest);
                }
            }
        },
        _ => {
            assert(request_by(s) =~= Seq::<(u128, bool)>::empty());
            assert(accepted_by(s) =~= Seq::<u128>::empty());
            assert(service_requests(a) =~= ev);
            assert(service_accepted(a) =~= acc);
        },
    }
}

/// The sink's rate limit holds whatever is flushed in between: over any run
/// of events handled by a service whose rate tracker starts with no
/// recorded request, as a new service's does, no window of the rate
/// tracker's length (from `lo` to `lo` plus the window, both ends included)
/// holds more readings taken into the buffer than the rate limit.
pub proof fn lemma_service_rate_limit(a: Seq<ServiceStep>, lo: int)
    requires
        a.len() > 0,
        is_service_run(a),
        a[0].before.queue.requests == Seq::<u128>::empty(),
    ensures
        count_in_window(service_accepted(a), lo, a[0].before.queue.time_window) <= a[0].before.queue.rate_limit,
{
    let start = a[0].before.queue;
    lemma_service_follows_model(start, a);
    lemma_rate_limit_holds(service_requests(a), start.time_window, start.rate_limit, lo);
}

} // verus!
