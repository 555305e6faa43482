//! A telemetry reading, and its form on the wire.
//!
//! The time of a reading is held as a point on the protobuf time line:
//! whole seconds since the Unix epoch and the nanoseconds that count
//! forward from them. A normalized point has its nanoseconds in
//! `0..1_000_000_000`; every wall-clock time has exactly one such form.
use std::time::SystemTime;

use vstd::prelude::*;

verus! {

#[verifier::external_type_specification]
#[verifier::external_body]
pub struct ExSystemTime(std::time::SystemTime);

#[verifier::external_type_specification]
#[verifier::external_body]
pub struct ExTimestampError(prost_types::TimestampError);

/// A point in time: whole seconds since the Unix epoch, and the nanoseconds
/// that count forward from them.
#[derive(Debug, Clone, Copy, PartialEq, Eq, PartialOrd, Ord, Hash, Structural)]
pub struct Timestamp {
    pub seconds: i64,
    pub nanos: i32,
}

/// A reading taken by a sensor.
#[derive(Debug, Clone)]
pub struct Telemetry {
    pub name: String,
    pub value: u32,
    pub timestamp: Timestamp,
}

/// A reading as it travels from a sensor node to the telemetry sink.
#[derive(Debug, Clone)]
pub struct SensorTelemetry {
    pub name: String,
    pub value: u32,
    pub timestamp: Option<Timestamp>,
}

pub open spec fn nanos_per_second() -> int {
    1_000_000_000
}

/// The nanoseconds lie in `0..1_000_000_000`.
pub open spec fn is_normalized(ts: Timestamp) -> bool {
    0 <= ts.nanos < nanos_per_second()
}

/// Division rounded toward zero, as Rust's `/` on integers.
pub open spec fn trunc_div(a: int, b: int) -> int {
    if a >= 0 {
        a / b
    } else {
        -((-a) / b)
    }
}

/// What `prost_types::Timestamp::normalize` makes of a timestamp: whole
/// seconds are carried out of the nanoseconds (saturating at the ends of
/// the `i64` range), then negative nanoseconds borrow one second.
pub open spec fn spec_normalized(ts: Timestamp) -> Timestamp {
    let s = ts.seconds as int;
    let n = ts.nanos as int;
    let carried: (int, int) = if n <= -nanos_per_second() || n >= nanos_per_second() {
        let q = trunc_div(n, nanos_per_second());
        if i64::MIN <= s + q && s + q <= i64::MAX {
            (s + q, n - q * nanos_per_second())
        } else if n < 0 {
            (i64::MIN as int, 0)
        } else {
            (i64::MAX as int, 999_999_999)
        }
    } else {
        (s, n)
    };
    let borrowed: (int, int) = if carried.1 < 0 {
        if carried.0 - 1 >= i64::MIN {
            (carried.0 - 1, carried.1 + nanos_per_second())
        } else {
            (carried.0, 0)
        }
    } else {
        carried
    };
    Timestamp { seconds: borrowed.0 as i64, nanos: borrowed.1 as i32 }
}

/// The wire form of a reading: the same name and value, and its time in
/// normalized form.
pub open spec fn wire_of(t: Telemetry) -> SensorTelemetry {
    SensorTelemetry { name: t.name, value: t.value, timestamp: Some(spec_normalized(t.timestamp)) }
}

/// The reading that a wire message carries, if the sink takes it: the same
/// name and value, at the normalized time of its timestamp.
pub open spec fn reading_of(wire: SensorTelemetry) -> Option<Telemetry> {
    match wire.timestamp {
        Some(ts) => Some(Telemetry { name: wire.name, value: wire.value, timestamp: spec_normalized(ts) }),
        None => None,
    }
}

/// `prost_types::Timestamp::from(SystemTime::now())`, taken apart into its
/// two fields: the current wall-clock time. As prost's source shows, the
/// nanoseconds always lie in `0..1_000_000_000`. The seconds depend on the
/// clock and are not stated. prost's conversion unwraps a conversion of the
/// seconds to `i64`, which fails only for a time `2^63` seconds or more
/// away from the epoch; the system clock cannot be set to such a time.
#[verifier::external_body]
pub(crate) fn timestamp_now() -> (ts: Timestamp)
    ensures
        is_normalized(ts),
{
    let ts = prost_types::Timestamp::from(SystemTime::now());
    Timestamp { seconds: ts.seconds, nanos: ts.nanos }
}

/// `prost_types::Timestamp::normalized`: the normalized form of a
/// timestamp, as its source computes it.
#[verifier::external_body]
fn normalized_timestamp(ts: Timestamp) -> (norm: Timestamp)
    ensures
        norm == spec_normalized(ts),
{
    let norm = prost_types::Timestamp { seconds: ts.seconds, nanos: ts.nanos }.normalized();
    Timestamp { seconds: norm.seconds, nanos: norm.nanos }
}

/// `SystemTime::try_from(prost_types::Timestamp)`. Whether it succeeds
/// depends on the range of `SystemTime` on the platform, which neither std's
/// documentation nor prost's source gives, and is not stated in general.
/// Two cases are: after normalizing, prost's source negates negative seconds
/// with `checked_neg`, which fails for `i64::MIN`; and the epoch itself
/// becomes `UNIX_EPOCH` plus zero seconds plus zero nanoseconds, which
/// `checked_add` gives back as `UNIX_EPOCH`, a time the platform holds.
#[verifier::external_body]
fn system_time_from_timestamp(ts: Timestamp) -> (converted: Result<SystemTime, prost_types::TimestampError>)
    ensures
        spec_normalized(ts).seconds == i64::MIN ==> converted is Err,
        spec_normalized(ts) == (Timestamp { seconds: 0, nanos: 0 }) ==> converted is Ok,
{
    SystemTime::try_from(prost_types::Timestamp { seconds: ts.seconds, nanos: ts.nanos })
}

/// Normalizing gives a normalized timestamp.
pub proof fn lemma_normalized_is_normalized(ts: Timestamp)
    ensures
        is_normalized(spec_normalized(ts)),
{
    let n = ts.nanos as int;
    if n <= -nanos_per_second() || n >= nanos_per_second() {
        let q = trunc_div(n, nanos_per_second());
        assert(-nanos_per_second() < n - q * nanos_per_second() < nanos_per_second()) by {
            if n >= 0 {
                assert(n / 1_000_000_000 * 1_000_000_000 <= n < n / 1_000_000_000 * 1_000_000_000 + 1_000_000_000);
            } else {
                assert((-n) / 1_000_000_000 * 1_000_000_000 <= -n < (-n) / 1_000_000_000 * 1_000_000_000
                    + 1_000_000_000);
            }
        }
    }
}

/// A normalized timestamp is its own normalized form.
pub proof fn lemma_normalized_fixed(ts: Timestamp)
    requires
        is_normalized(ts),
    ensures
        spec_normalized(ts) == ts,
{
}

/// Normalizing twice is normalizing once.
pub proof fn lemma_normalize_idempotent(ts: Timestamp)
    ensures
        spec_normalized(spec_normalized(ts)) == spec_normalized(ts),
{
    lemma_normalized_is_normalized(ts);
    lemma_normalized_fixed(spec_normalized(ts));
}

/// A reading sent in its wire form and taken by the sink comes back with
/// the same name and value, at the normalized form of its time; a reading
/// whose time is normalized, as every reading taken from the clock is,
/// comes back unchanged.
pub proof fn lemma_wire_round_trip(t: Telemetry)
    ensures
        reading_of(wire_of(t)) == Some(
            Telemetry { name: t.name, value: t.value, timestamp: spec_normalized(t.timestamp) },
        ),
        is_normalized(t.timestamp) ==> reading_of(wire_of(t)) == Some(t),
{
    lemma_normalize_idempotent(t.timestamp);
    if is_normalized(t.timestamp) {
        lemma_normalized_fixed(t.timestamp);
    }
}

impl SensorTelemetry {
    /// The wire form of a reading: the same name and value, and the time in
    /// normalized form.
    pub fn from(value: Telemetry) -> (wire: SensorTelemetry)
        ensures
            wire == wire_of(value),
    {
        SensorTelemetry {
            name: value.name,
            value: value.value,
            timestamp: Some(normalized_timestamp(value.timestamp)),
        }
    }
}

impl Telemetry {
    /// The reading that a wire message carries. A message without a
    /// timestamp is refused with "missing timestamp", and one whose
    /// timestamp the platform's `SystemTime` cannot hold with
    /// "invalid timestamp"; a taken reading is at the normalized time of the
    /// timestamp.
    pub fn try_from(value: SensorTelemetry) -> (res: Result<Telemetry, String>)
        ensures
            value.timestamp is None ==> (res matches Err(e) && e@ == "missing timestamp"@),
            value.timestamp matches Some(ts) ==> match res {
                Ok(t) => reading_of(value) == Some(t),
                Err(e) => e@ == "invalid timestamp"@,
            },
            value.timestamp matches Some(ts) && spec_normalized(ts).seconds == i64::MIN ==> res is Err,
            value.timestamp matches Some(ts) && spec_normalized(ts) == (Timestamp { seconds: 0, nanos: 0 })
                ==> res is Ok,
    {
        match value.timestamp {
            None => Err("missing timestamp".to_owned()),
            Some(ts) => {
                let converted = system_time_from_timestamp(ts);
                Self::with_converted_time(value.name, value.value, normalized_timestamp(ts), converted)
            },
        }
    }

    /// The reading of `name` and `value` at `timestamp`, if the conversion
    /// of that time to the platform's `SystemTime` succeeded, or
    /// "invalid timestamp" if it failed.
    pub fn with_converted_time(
        name: String,
        value: u32,
        timestamp: Timestamp,
        converted: Result<SystemTime, prost_types::TimestampError>,
    ) -> (res: Result<Telemetry, String>)
        ensures
            match converted {
                Ok(_) => res == Ok::<Telemetry, String>(Telemetry { name, value, timestamp }),
                Err(_) => res matches Err(e) && e@ == "invalid timestamp"@,
            },
    {
        match converted {
            Ok(_) => Ok(Telemetry { name, value, timestamp }),
            Err(_) => Err("invalid timestamp".to_owned()),
        }
    }
}

} // verus!
