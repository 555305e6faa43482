use telemetry::telemetry::Timestamp;

use telemetry::sink::{milliseconds_parser, ServiceAction, ServiceEvent, TelemetryService};
use telemetry::telemetry::Telemetry;

fn reading(value: u32) -> Telemetry {
    Telemetry { name: "s".to_string(), value, timestamp: Timestamp { seconds: 0, nanos: 0 } }
}

#[test]
fn milliseconds_parser_accepts_positive_integers() {
    assert_eq!(milliseconds_parser("100"), Ok(100));
    assert_eq!(milliseconds_parser("+5"), Ok(5));
    assert_eq!(milliseconds_parser("18446744073709551615"), Ok(u64::MAX));
}

#[test]
fn milliseconds_parser_refuses_the_rest() {
    let message = "seconds must be a positive integer".to_string();
    assert_eq!(milliseconds_parser("0"), Err(message.clone()));
    assert_eq!(milliseconds_parser(""), Err(message.clone()));
    assert_eq!(milliseconds_parser("-1"), Err(message.clone()));
    assert_eq!(milliseconds_parser(" 1"), Err(message.clone()));
    assert_eq!(milliseconds_parser("1.5"), Err(message.clone()));
    assert_eq!(milliseconds_parser("+"), Err(message.clone()));
    assert_eq!(milliseconds_parser("18446744073709551616"), Err(message));
}

fn written(action: ServiceAction) -> Vec<u32> {
    match action {
        ServiceAction::Write(items) => items.iter().map(|t| t.value).collect(),
        _ => panic!("expected a write"),
    }
}

#[test]
fn service_buffers_and_flushes_in_order() {
    let mut service = TelemetryService::new(10, 100);
    for v in 0..3 {
        assert!(matches!(service.handle(ServiceEvent::Received(reading(v))), ServiceAction::Continue));
    }
    assert_eq!(written(service.handle(ServiceEvent::FlushTick)), vec![0, 1, 2]);
    assert!(written(service.handle(ServiceEvent::FlushTick)).is_empty());
}

#[test]
fn service_asks_for_a_notice_when_full() {
    let mut service = TelemetryService::new(2, 100);
    assert!(matches!(service.handle(ServiceEvent::Received(reading(1))), ServiceAction::Continue));
    assert!(matches!(service.handle(ServiceEvent::Received(reading(2))), ServiceAction::Continue));
    assert!(matches!(service.handle(ServiceEvent::Received(reading(3))), ServiceAction::NotifyQueueFull));
    assert_eq!(written(service.handle(ServiceEvent::QueueFullNotice)), vec![1, 2]);
    assert!(matches!(service.handle(ServiceEvent::Received(reading(4))), ServiceAction::Continue));
}

#[test]
fn service_drops_readings_over_the_rate() {
    let mut service = TelemetryService::new(10, 2);
    assert!(matches!(service.handle(ServiceEvent::Received(reading(1))), ServiceAction::Continue));
    assert!(matches!(service.handle(ServiceEvent::Received(reading(2))), ServiceAction::Continue));
    assert!(matches!(service.handle(ServiceEvent::Received(reading(3))), ServiceAction::Continue));
    assert_eq!(written(service.handle(ServiceEvent::FlushTick)), vec![1, 2]);
}

#[test]
fn service_stops_when_the_senders_are_gone() {
    let mut service = TelemetryService::new(10, 10);
    assert!(matches!(service.handle(ServiceEvent::Received(reading(1))), ServiceAction::Continue));
    assert!(matches!(service.handle(ServiceEvent::SenderClosed), ServiceAction::Stop));
}

#[test]
fn shutdown_flushes_the_buffer() {
    let mut service = TelemetryService::new(10, 10);
    assert!(matches!(service.handle(ServiceEvent::Received(reading(1))), ServiceAction::Continue));
    assert!(matches!(service.handle(ServiceEvent::Received(reading(2))), ServiceAction::Continue));
    match service.handle(ServiceEvent::Cancelled) {
        ServiceAction::Finish(items) => assert_eq!(items.iter().map(|t| t.value).collect::<Vec<_>>(), vec![1, 2]),
        _ => panic!("expected the buffer to be handed out"),
    }
}

#[test]
fn at_most_one_full_notice_is_pending() {
    let mut service = TelemetryService::new(1, 100);
    assert!(matches!(service.handle(ServiceEvent::Received(reading(1))), ServiceAction::Continue));
    assert!(matches!(service.handle(ServiceEvent::Received(reading(2))), ServiceAction::NotifyQueueFull));
    // the notice has not been received yet: no second one
    assert!(matches!(service.handle(ServiceEvent::Received(reading(3))), ServiceAction::Continue));
    // a timer flush does not answer the pending notice
    assert_eq!(written(service.handle(ServiceEvent::FlushTick)), vec![1]);
    assert!(matches!(service.handle(ServiceEvent::Received(reading(4))), ServiceAction::Continue));
    assert!(matches!(service.handle(ServiceEvent::Received(reading(5))), ServiceAction::Continue));
    assert_eq!(written(service.handle(ServiceEvent::QueueFullNotice)), vec![4]);
    // the notice was received: a full buffer asks for one again
    assert!(matches!(service.handle(ServiceEvent::Received(reading(6))), ServiceAction::Continue));
    assert!(matches!(service.handle(ServiceEvent::Received(reading(7))), ServiceAction::NotifyQueueFull));
}

#[test]
fn decimal_form_parses_back() {
    for n in [1u64, 9, 10, 100, 4_294_967_296, u64::MAX] {
        assert_eq!(milliseconds_parser(&n.to_string()), Ok(n));
    }
}
