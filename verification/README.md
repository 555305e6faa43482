# telemetry

The logic of a small distributed telemetry system, verified with Verus:
sensor nodes stream readings over gRPC to a sink, which buffers them in a
bounded queue with a sliding-window rate limit and writes them to a log file.

- `src/rate_limit.rs`: the model of the sliding-window rate limiter and the
  proof that no window ever holds more accepted requests than the limit.
- `src/rate_limited_queue.rs`: the rate tracker and the rate-limited queue.
- `src/queue_laws.rs`: laws over runs of enqueue attempts (rate limit, FIFO).
- `src/service_laws.rs`: the law that the sink writes only what it received, in order.
- `src/tls.rs`: whether mutual TLS is configured.
- `src/telemetry.rs`: a reading and its wire form, and the conversions.
- `src/sensor.rs`: sensor configuration and the readings a node composes.
- `src/sink.rs`: parsing of the flush interval and the sink's buffering
  service as a state machine from events to actions.
- `app/`: the two programs (`sensor-node`, `telemetry-sink`): command lines,
  gRPC transport, logging, files and the async loops that run the library.
