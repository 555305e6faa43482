//! The sensor node: its configuration and the readings it composes.
use std::path::PathBuf;

use vstd::prelude::*;

use crate::telemetry::{is_normalized, timestamp_now, Telemetry, Timestamp};
use crate::tls::tls_files;

verus! {

#[verifier::external_type_specification]
#[verifier::external_body]
pub struct ExPathBuf(std::path::PathBuf);

/// The command line of a sensor node.
pub struct Args {
    /// Address of the telemetry sink
    pub telemetry_sink_address: String,
    /// Name of the sensor
    pub name: String,
    /// Rate of telemetry messages per second
    pub rate: u32,
    /// Number of worker threads to use for telemetry processing
    pub worker_threads: Option<usize>,
    /// Client certificate file for mTLS
    pub tls_cert: Option<PathBuf>,
    /// Client private key file for mTLS
    pub tls_key: Option<PathBuf>,
    /// CA certificate file for server verification
    pub tls_ca: Option<PathBuf>,
}

/// mTLS configuration of a sensor node.
pub struct TlsConfig {
    /// Path to the client certificate file
    pub cert: PathBuf,
    /// Path to the client private key file
    pub key: PathBuf,
    /// Path to the CA certificate file for server verification
    pub ca: PathBuf,
}

/// Configuration of a sensor node.
pub struct Config {
    /// Name of the sensor
    pub name: String,
    /// Rate of telemetry messages per second
    pub rate: u32,
    /// mTLS configuration
    pub tls_config: Option<TlsConfig>,
}

/// mTLS is configured exactly when all three files are given.
pub open spec fn tls_config_of(cert: Option<PathBuf>, key: Option<PathBuf>, ca: Option<PathBuf>) -> Option<TlsConfig> {
    match (cert, key, ca) {
        (Some(cert), Some(key), Some(ca)) => Some(TlsConfig { cert, key, ca }),
        _ => None,
    }
}

impl Config {
    pub fn new(name: String, rate: u32, tls_config: Option<TlsConfig>) -> (config: Self)
        ensures
            config.name == name,
            config.rate == rate,
            config.tls_config == tls_config,
    {
        Config { name, rate, tls_config }
    }
}

impl From<Args> for Config {
    fn from(value: Args) -> (config: Self) {
        let tls_config = match tls_files(value.tls_cert, value.tls_key, value.tls_ca) {
            Some((cert, key, ca)) => Some(TlsConfig { cert, key, ca }),
            None => None,
        };
        Config { name: value.name, rate: value.rate, tls_config }
    }
}

impl vstd::std_specs::convert::FromSpecImpl<Args> for Config {
    open spec fn obeys_from_spec() -> bool {
        true
    }

    open spec fn from_spec(v: Args) -> Config {
        Config { name: v.name, rate: v.rate, tls_config: tls_config_of(v.tls_cert, v.tls_key, v.tls_ca) }
    }
}

/// A sensor node: its configuration and the value of its next reading.
pub struct SensorNode {
    config: Config,
    value: u32,
}

/// The time between two readings at `rate` readings per second, in
/// nanoseconds: one second divided by the rate, rounded down.
pub open spec fn tick_period(rate: u32) -> int {
    1_000_000_000int / (rate as int)
}

/// One second divided by `rate`, rounded down, is the largest period that
/// `rate` readings fit into within one second.
proof fn lemma_period_bounds(rate: int, period: int)
    requires
        rate > 0,
        period == 1_000_000_000int / rate,
    ensures
        period * rate <= 1_000_000_000,
        1_000_000_000 < (period + 1) * rate,
{
    vstd::arithmetic::div_mod::lemma_fundamental_div_mod(1_000_000_000int, rate);
    vstd::arithmetic::div_mod::lemma_mod_pos_bound(1_000_000_000int, rate);
    assert(period * rate == rate * period) by (nonlinear_arith);
    assert((period + 1) * rate == rate * period + rate) by (nonlinear_arith);
}

impl SensorNode {
    pub closed spec fn config(&self) -> Config {
        self.config
    }

    /// The value that the next reading carries.
    pub closed spec fn value(&self) -> u32 {
        self.value
    }

    pub fn new(config: Config) -> (node: Self)
        ensures
            node.config() == config,
            node.value() == 0,
    {
        SensorNode { config, value: 0 }
    }

    /// A reading of `value` by the sensor `name`, taken at `timestamp`.
    pub fn compose_message_at(name: &str, value: u32, timestamp: Timestamp) -> (message: Telemetry)
        ensures
            message.name@ == name@,
            message.value == value,
            message.timestamp == timestamp,
    {
        Telemetry { name: name.to_owned(), value, timestamp }
    }

    /// A reading of `value` by the sensor `name`, taken now: its time is the
    /// wall-clock time read for it.
    pub fn compose_message(name: &str, value: u32) -> (message: Telemetry)
        ensures
            message.name@ == name@,
            message.value == value,
            is_normalized(message.timestamp),
    {
        Self::compose_message_at(name, value, timestamp_now())
    }

    /// The next reading of this sensor: it carries the current value, and
    /// the value after it is one more, wrapping around at `u32::MAX`.
    pub fn next_message(&mut self) -> (message: Telemetry)
        ensures
            message.name@ == old(self).config().name@,
            message.value == old(self).value(),
            is_normalized(message.timestamp),
            final(self).value() == old(self).value().wrapping_add(1),
            final(self).config() == old(self).config(),
    {
        let message = Self::compose_message(self.config.name.as_str(), self.value);
        self.value = self.value.wrapping_add(1);
        message
    }

    /// The time between two readings, in nanoseconds.
    pub fn tick_period_nanos(&self) -> (period: u64)
        requires
            self.config().rate > 0,
        ensures
            period == tick_period(self.config().rate),
            period * self.config().rate <= 1_000_000_000,
            1_000_000_000 < (period + 1) * self.config().rate,
    {
        let rate = self.config.rate as u64;
        let period = 1_000_000_000u64 / rate;
        proof {
            lemma_period_bounds(rate as int, period as int);
        }
        period
    }

    /// The configured rate, in readings per second.
    pub fn rate(&self) -> (rate: u32)
        ensures
            rate == self.config().rate,
    {
        self.config.rate
    }
}

} // verus!
