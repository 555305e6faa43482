//! Telemetry pipeline logic: the sensor side that composes readings, the
//! wire model of a reading, and the sink side that buffers readings in a
//! bounded, sliding-window rate-limited queue before they are written out.

pub mod rate_limit;
pub mod rate_limited_queue;
pub mod telemetry;
pub mod sensor;
pub mod sink;
pub mod queue_laws;
pub mod service_laws;
pub mod tls;
