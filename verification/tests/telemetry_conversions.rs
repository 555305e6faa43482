use std::time::{Duration, UNIX_EPOCH};

use telemetry::telemetry::{SensorTelemetry, Telemetry, Timestamp};

fn at(seconds: i64, nanos: i32) -> Timestamp {
    Timestamp { seconds, nanos }
}

#[test]
fn wire_form_keeps_name_value_and_time() {
    let reading = Telemetry { name: "n".to_string(), value: 3, timestamp: at(2, 5) };
    let wire = SensorTelemetry::from(reading);
    assert_eq!(wire.name, "n");
    assert_eq!(wire.value, 3);
    assert_eq!(wire.timestamp, Some(at(2, 5)));
}

#[test]
fn wire_form_normalizes_the_time() {
    let reading = Telemetry { name: "old".to_string(), value: 1, timestamp: at(-1, -500_000_000) };
    assert_eq!(SensorTelemetry::from(reading).timestamp, Some(at(-2, 500_000_000)));
    let reading = Telemetry { name: "over".to_string(), value: 1, timestamp: at(5, i32::MAX) };
    assert_eq!(SensorTelemetry::from(reading).timestamp, Some(at(7, 147_483_647)));
    let reading = Telemetry { name: "under".to_string(), value: 1, timestamp: at(5, -2_000_000_001) };
    assert_eq!(SensorTelemetry::from(reading).timestamp, Some(at(2, 999_999_999)));
}

#[test]
fn reading_from_wire() {
    let wire = SensorTelemetry { name: "probe".to_string(), value: 7, timestamp: Some(at(10, 5)) };
    let reading = Telemetry::try_from(wire).unwrap();
    assert_eq!(reading.name, "probe");
    assert_eq!(reading.value, 7);
    assert_eq!(reading.timestamp, at(10, 5));
}

#[test]
fn reading_from_wire_normalizes_nanos() {
    let wire = SensorTelemetry { name: "n".to_string(), value: 0, timestamp: Some(at(10, -1)) };
    let reading = Telemetry::try_from(wire).unwrap();
    assert_eq!(reading.timestamp, at(9, 999_999_999));
}

#[test]
fn missing_timestamp_is_refused() {
    let wire = SensorTelemetry { name: "probe".to_string(), value: 7, timestamp: None };
    assert_eq!(Telemetry::try_from(wire).unwrap_err(), "missing timestamp");
}

#[test]
fn out_of_range_timestamp_is_refused() {
    let wire = SensorTelemetry { name: "probe".to_string(), value: 7, timestamp: Some(at(i64::MIN, 0)) };
    assert_eq!(Telemetry::try_from(wire).unwrap_err(), "invalid timestamp");
}

#[test]
fn round_trip_keeps_the_reading() {
    let time = UNIX_EPOCH + Duration::new(1_700_000_000, 250_000_000);
    let ts = prost_types::Timestamp::from(time);
    let reading = Telemetry { name: "rt".to_string(), value: 9, timestamp: at(ts.seconds, ts.nanos) };
    let back = Telemetry::try_from(SensorTelemetry::from(reading.clone())).unwrap();
    assert_eq!(back.name, reading.name);
    assert_eq!(back.value, reading.value);
    assert_eq!(back.timestamp, at(1_700_000_000, 250_000_000));
    assert_eq!(back.timestamp, reading.timestamp);
}

#[test]
fn reading_with_converted_time() {
    let time = UNIX_EPOCH + Duration::new(3, 0);
    let reading = Telemetry::with_converted_time("a".to_string(), 2, at(3, 0), Ok(time)).unwrap();
    assert_eq!(reading.name, "a");
    assert_eq!(reading.value, 2);
    assert_eq!(reading.timestamp, at(3, 0));
    let failed = Telemetry::with_converted_time(
        "a".to_string(),
        2,
        at(3, 0),
        Err(prost_types::TimestampError::InvalidDateTime),
    );
    assert_eq!(failed.unwrap_err(), "invalid timestamp");
}
