//! The telemetry sink: its command-line parsing of durations, and the
//! service that buffers incoming readings and decides when to write them.
use vstd::prelude::*;

use crate::rate_limited_queue::{enqueue_effect, keeps_all_but_items, EnqueueResult, QueueConfig, QueueView, RateLimitedQueue};
use crate::rate_limit::is_timeline;
use crate::telemetry::Telemetry;

verus! {

/// An ASCII decimal digit.
pub open spec fn is_digit(c: char) -> bool {
    '0' <= c && c <= '9'
}

/// The number that a string of decimal digits writes.
pub open spec fn digits_value(s: Seq<char>) -> int
    decreases s.len(),
{
    if s.len() == 0 {
        0
    } else {
        digits_value(s.drop_last()) * 10 + (s.last() as int - '0' as int)
    }
}

/// The digits of an unsigned decimal number: an optional leading `+` is
/// dropped.
pub open spec fn unsigned_digits(s: Seq<char>) -> Seq<char> {
    if s.len() > 0 && s[0] == '+' {
        s.drop_first()
    } else {
        s
    }
}

/// What `u64::from_str` gives: the number written by an optional `+`
/// followed by one or more decimal digits, if it fits in a `u64`; nothing
/// for any other string.
pub open spec fn spec_parse_u64(s: Seq<char>) -> Option<u64> {
    let d = unsigned_digits(s);
    if d.len() > 0 && (forall|i: int| 0 <= i < d.len() ==> is_digit(#[trigger] d[i])) && digits_value(d)
        <= u64::MAX {
        Some(digits_value(d) as u64)
    } else {
        None
    }
}

/// The decimal digit of `d`, below ten.
pub open spec fn digit_char(d: nat) -> char {
    (('0' as nat) + d) as char
}

/// The decimal form of `n`, with no leading zero, as `n.to_string()` writes it.
pub open spec fn decimal(n: nat) -> Seq<char>
    decreases n,
{
    if n < 10 {
        seq![digit_char(n)]
    } else {
        decimal(n / 10).push(digit_char(n % 10))
    }
}

/// The value of a prefix of a string of digits is at most the value of the
/// whole.
proof fn lemma_prefix_value_le(d: Seq<char>, j: int)
    requires
        0 <= j <= d.len(),
        forall|i: int| 0 <= i < d.len() ==> is_digit(#[trigger] d[i]),
    ensures
        0 <= digits_value(d.take(j)) <= digits_value(d),
    decreases d.len(),
{
    if j == d.len() {
        assert(d.take(j) =~= d);
        lemma_value_nonneg(d);
    } else {
        let p = d.drop_last();
        assert forall|i: int| 0 <= i < p.len() implies is_digit(#[trigger] p[i]) by {
            assert(p[i] == d[i]);
        }
        lemma_prefix_value_le(p, j);
        assert(p.take(j) =~= d.take(j));
        assert(is_digit(d[d.len() - 1]));
    }
}

proof fn lemma_value_nonneg(d: Seq<char>)
    requires
        forall|i: int| 0 <= i < d.len() ==> is_digit(#[trigger] d[i]),
    ensures
        0 <= digits_value(d),
    decreases d.len(),
{
    if d.len() > 0 {
        let p = d.drop_last();
        assert forall|i: int| 0 <= i < p.len() implies is_digit(#[trigger] p[i]) by {
            assert(p[i] == d[i]);
        }
        lemma_value_nonneg(p);
        assert(is_digit(d[d.len() - 1]));
    }
}

/// The decimal form of a number is one or more digits that write it.
proof fn lemma_decimal(n: nat)
    ensures
        decimal(n).len() > 0,
        forall|i: int| 0 <= i < decimal(n).len() ==> is_digit(#[trigger] decimal(n)[i]),
        digits_value(decimal(n)) == n,
    decreases n,
{
    if n >= 10 {
        lemma_decimal(n / 10);
        let d = decimal(n);
        let p = decimal(n / 10);
        assert(d.drop_last() =~= p);
        assert forall|i: int| 0 <= i < d.len() implies is_digit(#[trigger] d[i]) by {
            if i < p.len() {
                assert(d[i] == p[i]);
            }
        }
        assert((n / 10) * 10 + n % 10 == n);
        assert(d.last() == digit_char(n % 10));
        assert(digit_char(n % 10) as int == '0' as int + n % 10);
        assert(digits_value(d) == digits_value(p) * 10 + (d.last() as int - '0' as int));
    } else {
        let d = decimal(n);
        assert(d.drop_last() =~= Seq::<char>::empty());
        assert(digit_char(n) as int == '0' as int + n);
        assert(digits_value(d) == digits_value(d.drop_last()) * 10 + (d.last() as int - '0' as int));
    }
}

/// What a positive number of milliseconds is written as, the flush
/// interval parser reads back: the decimal form of any `u64` parses to it.
pub proof fn lemma_decimal_parses(n: u64)
    ensures
        spec_parse_u64(decimal(n as nat)) == Some(n),
{
    lemma_decimal(n as nat);
    let d = decimal(n as nat);
    assert(is_digit(d[0]));
    assert(unsigned_digits(d) == d);
}

/// `str::parse::<u64>`, with the error dropped: the number written by an
/// optional `+` followed by one or more decimal digits, if it fits in a
/// `u64`, as the documentation of `u64::from_str_radix` says.
fn parse_u64(s: &str) -> (n: Option<u64>)
    ensures
        n == spec_parse_u64(s@),
{
    let len = s.unicode_len();
    let mut start: usize = 0;
    if len > 0 && s.get_char(0) == '+' {
        start = 1;
    }
    let ghost d = unsigned_digits(s@);
    proof {
        if start == 1 {
            assert(d =~= s@.subrange(1, s@.len() as int));
        } else {
            assert(d =~= s@.subrange(0, s@.len() as int));
        }
    }
    if start == len {
        return None;
    }
    let mut acc: u64 = 0;
    let mut i: usize = start;
    while i < len
        invariant
            len == s@.len(),
            start <= i <= len,
            d.len() == len - start,
            forall|k: int| 0 <= k < d.len() ==> d[k] == s@[k + start],
            forall|k: int| 0 <= k < i - start ==> is_digit(#[trigger] d[k]),
            acc == digits_value(d.take(i - start)),
            d == unsigned_digits(s@),
        decreases len - i,
    {
        let c = s.get_char(i);
        assert(c == d[i - start]);
        if !('0' <= c && c <= '9') {
            return None;
        }
        let digit = ((c as u32) - ('0' as u32)) as u64;
        let k = i - start;
        assert(d.take(k + 1).drop_last() =~= d.take(k as int));
        assert(digits_value(d.take(k + 1)) == acc * 10 + digit);
        let next = match acc.checked_mul(10) {
            Some(m) => m.checked_add(digit),
            None => None,
        };
        match next {
            Some(v) => {
                acc = v;
            },
            None => {
                proof {
                    if forall|j: int| 0 <= j < d.len() ==> is_digit(#[trigger] d[j]) {
                        lemma_prefix_value_le(d, k + 1);
                    }
                }
                return None;
            },
        }
        i = i + 1;
    }
    assert(d.take(d.len() as int) =~= d);
    Some(acc)
}

/// Parses the interval between buffer flushes: a positive whole number of
/// milliseconds.
pub fn milliseconds_parser(s: &str) -> (res: Result<u64, String>)
    ensures
        match spec_parse_u64(s@) {
            Some(n) if n > 0 => res == Ok::<u64, String>(n),
            _ => res matches Err(e) && e@ == "seconds must be a positive integer"@,
        },
{
    match parse_u64(s) {
        Some(n) if n > 0 => Ok(n),
        _ => Err("seconds must be a positive integer".to_owned()),
    }
}

/// The length of the sink's rate-limit window: one second, in nanoseconds.
pub const RATE_WINDOW_NANOS: u128 = 1_000_000_000u128;

/// What the telemetry service learns from outside.
pub enum ServiceEvent {
    /// A reading arrived from a sensor node.
    Received(Telemetry),
    /// The channel of readings was closed by every sender.
    SenderClosed,
    /// The periodic flush interval elapsed.
    FlushTick,
    /// A notice that the buffer was found full.
    QueueFullNotice,
    /// Shutdown was requested.
    Cancelled,
}

/// What the telemetry service asks to be done next.
pub enum ServiceAction {
    /// Nothing; wait for the next event.
    Continue,
    /// Send a notice that the buffer is full, so that it gets flushed.
    NotifyQueueFull,
    /// Write these readings out, in order.
    Write(Vec<Telemetry>),
    /// Write these readings out, in order, then stop the service.
    Finish(Vec<Telemetry>),
    /// Stop the service.
    Stop,
}

/// What the telemetry service holds: its buffer, and whether a notice that
/// the buffer is full has been asked for and not yet received.
pub struct ServiceView {
    pub queue: QueueView<Telemetry>,
    pub notice_pending: bool,
}

/// Handling `event` took the service from `before` to `after` and asked for
/// `action`. A reading is offered to the buffer at a time no earlier than
/// the latest one; a notice is asked for when the buffer was full and no
/// notice is pending. A flush tick hands every buffered reading out to be
/// written, and a full notice does so too and clears the pending notice. A
/// cancellation hands them out to be written before the service stops.
/// Handing readings out leaves the rate tracker as it is: the readings taken
/// in still count against the rate limit. A closed channel stops the
/// service, leaving it as it is.
pub open spec fn handle_effect(before: ServiceView, after: ServiceView, event: ServiceEvent, action: ServiceAction) -> bool {
    match event {
        ServiceEvent::Received(message) => exists|now: u128, result: EnqueueResult|
            {
                &&& now >= before.queue.latest
                &&& after.queue.latest == now
                &&& #[trigger] enqueue_effect(before.queue, after.queue, message, now, result)
                &&& is_timeline(before.queue.requests, before.queue.latest) ==> is_timeline(
                    after.queue.requests,
                    after.queue.latest,
                )
                &&& if result == EnqueueResult::QueueFull && !before.notice_pending {
                    &&& action is NotifyQueueFull
                    &&& after.notice_pending
                } else {
                    &&& action is Continue
                    &&& after.notice_pending == before.notice_pending
                }
            },
        ServiceEvent::FlushTick => {
            &&& action matches ServiceAction::Write(items) && items@ == before.queue.items
            &&& after.queue.items == Seq::<Telemetry>::empty()
            &&& after.queue.requests == before.queue.requests
            &&& keeps_all_but_items(before.queue, after.queue)
            &&& after.notice_pending == before.notice_pending
        },
        ServiceEvent::QueueFullNotice => {
            &&& action matches ServiceAction::Write(items) && items@ == before.queue.items
            &&& after.queue.items == Seq::<Telemetry>::empty()
            &&& after.queue.requests == before.queue.requests
            &&& keeps_all_but_items(before.queue, after.queue)
            &&& !after.notice_pending
        },
        ServiceEvent::Cancelled => {
            &&& action matches ServiceAction::Finish(items) && items@ == before.queue.items
            &&& after.queue.items == Seq::<Telemetry>::empty()
            &&& after.queue.requests == before.queue.requests
            &&& keeps_all_but_items(before.queue, after.queue)
            &&& after.notice_pending == before.notice_pending
        },
        ServiceEvent::SenderClosed => {
            &&& action is Stop
            &&& after == before
        },
    }
}

/// The telemetry service: a rate-limited buffer of readings, flushed on a
/// timer or when it is found full.
pub struct TelemetryService {
    deque: RateLimitedQueue<Telemetry>,
    notice_pending: bool,
}

impl View for TelemetryService {
    type V = ServiceView;

    closed spec fn view(&self) -> ServiceView {
        ServiceView { queue: self.deque@, notice_pending: self.notice_pending }
    }
}

impl TelemetryService {
    pub closed spec fn wf(&self) -> bool {
        self.deque.wf()
    }

    /// A service that buffers at most `buffer_size` readings and accepts at
    /// most `rate_limit` of them per second.
    pub fn new(buffer_size: usize, rate_limit: usize) -> (service: Self)
        ensures
            service.wf(),
            service@.queue.items == Seq::<Telemetry>::empty(),
            service@.queue.requests == Seq::<u128>::empty(),
            service@.queue.latest == 0,
            is_timeline(service@.queue.requests, service@.queue.latest),
            service@.queue.max_capacity == buffer_size,
            service@.queue.rate_limit == rate_limit,
            service@.queue.time_window == RATE_WINDOW_NANOS,
            !service@.notice_pending,
    {
        let queue_config = QueueConfig {
            max_capacity: buffer_size,
            rate_limit,
            time_window: RATE_WINDOW_NANOS,
        };
        TelemetryService { deque: RateLimitedQueue::new(queue_config), notice_pending: false }
    }

    /// Buffer a reading, if the rate limit and the capacity let it in.
    fn try_enqueue_telemetry(&mut self, message: Telemetry) -> (result: EnqueueResult)
        requires
            old(self).wf(),
        ensures
            final(self).wf(),
            final(self)@.notice_pending == old(self)@.notice_pending,
            is_timeline(old(self)@.queue.requests, old(self)@.queue.latest) ==> is_timeline(
                final(self)@.queue.requests,
                final(self)@.queue.latest,
            ),
            exists|now: u128|
                {
                    &&& now >= old(self)@.queue.latest
                    &&& final(self)@.queue.latest == now
                    &&& #[trigger] enqueue_effect(old(self)@.queue, final(self)@.queue, message, now, result)
                },
    {
        let ghost m = message;
        let result = self.deque.enqueue(message);
        proof {
            let now = choose|now: u128|
                {
                    &&& now >= old(self).deque@.latest
                    &&& self.deque@.latest == now
                    &&& #[trigger] enqueue_effect(old(self).deque@, self.deque@, m, now, result)
                };
            assert(enqueue_effect(old(self)@.queue, self@.queue, m, now, result));
        }
        result
    }

    /// Take every buffered reading out, oldest first.
    fn flush(&mut self) -> (items: Vec<Telemetry>)
        requires
            old(self).wf(),
        ensures
            final(self).wf(),
            items@ == old(self)@.queue.items,
            final(self)@.queue.items == Seq::<Telemetry>::empty(),
            final(self)@.queue.requests == old(self)@.queue.requests,
            keeps_all_but_items(old(self)@.queue, final(self)@.queue),
            final(self)@.notice_pending == old(self)@.notice_pending,
    {
        self.deque.dequeue_all()
    }

    /// Decide what to do on an event; see `handle_effect`. At most one
    /// notice that the buffer is full is asked for until it is received.
    pub fn handle(&mut self, event: ServiceEvent) -> (action: ServiceAction)
        requires
            old(self).wf(),
        ensures
            final(self).wf(),
            handle_effect(old(self)@, final(self)@, event, action),
    {
        match event {
            ServiceEvent::Received(message) => {
                let ghost m = message;
                let result = self.try_enqueue_telemetry(message);
                let ghost mid = self@;
                let ask = match result {
                    EnqueueResult::QueueFull => !self.notice_pending,
                    _ => false,
                };
                let action = if ask {
                    self.notice_pending = true;
                    ServiceAction::NotifyQueueFull
                } else {
                    ServiceAction::Continue
                };
                proof {
                    let now = choose|now: u128|
                        {
                            &&& now >= old(self)@.queue.latest
                            &&& mid.queue.latest == now
                            &&& #[trigger] enqueue_effect(old(self)@.queue, mid.queue, m, now, result)
                        };
                    assert(self@.queue == mid.queue);
                    assert(enqueue_effect(old(self)@.queue, self@.queue, m, now, result));
                }
                action
            },
            ServiceEvent::FlushTick => ServiceAction::Write(self.flush()),
            ServiceEvent::QueueFullNotice => {
                let items = self.flush();
                self.notice_pending = false;
                ServiceAction::Write(items)
            },
            ServiceEvent::Cancelled => ServiceAction::Finish(self.flush()),
            ServiceEvent::SenderClosed => ServiceAction::Stop,
        }
    }
}

} // verus!
