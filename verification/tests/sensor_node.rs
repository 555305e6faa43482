use std::path::PathBuf;
use telemetry::tls::tls_files;

use telemetry::sensor::{Args, Config, SensorNode, TlsConfig};

fn args(cert: Option<&str>, key: Option<&str>, ca: Option<&str>) -> Args {
    Args {
        telemetry_sink_address: "http://127.0.0.1:3000".to_string(),
        name: "uninitialized".to_string(),
        rate: 10,
        worker_threads: None,
        tls_cert: cert.map(PathBuf::from),
        tls_key: key.map(PathBuf::from),
        tls_ca: ca.map(PathBuf::from),
    }
}

#[test]
fn config_from_args_with_all_tls_files() {
    let config = Config::from(args(Some("c.pem"), Some("k.pem"), Some("ca.pem")));
    assert_eq!(config.name, "uninitialized");
    assert_eq!(config.rate, 10);
    let tls = config.tls_config.unwrap();
    assert_eq!(tls.cert, PathBuf::from("c.pem"));
    assert_eq!(tls.key, PathBuf::from("k.pem"));
    assert_eq!(tls.ca, PathBuf::from("ca.pem"));
}

#[test]
fn config_from_args_without_a_tls_file() {
    assert!(Config::from(args(Some("c.pem"), None, Some("ca.pem"))).tls_config.is_none());
    assert!(Config::from(args(None, None, None)).tls_config.is_none());
}

#[test]
fn config_new_keeps_its_fields() {
    let tls = TlsConfig { cert: PathBuf::from("a"), key: PathBuf::from("b"), ca: PathBuf::from("c") };
    let config = Config::new("n".to_string(), 3, Some(tls));
    assert_eq!(config.name, "n");
    assert_eq!(config.rate, 3);
    assert!(config.tls_config.is_some());
}

#[test]
fn readings_count_up() {
    let mut node = SensorNode::new(Config::new("s1".to_string(), 20, None));
    let first = node.next_message();
    let second = node.next_message();
    assert_eq!(first.name, "s1");
    assert_eq!(first.value, 0);
    assert_eq!(second.value, 1);
    assert!(second.timestamp >= first.timestamp);
}

#[test]
fn compose_message_carries_name_and_value() {
    let message = SensorNode::compose_message("probe", 77);
    assert_eq!(message.name, "probe");
    assert_eq!(message.value, 77);
}

#[test]
fn tick_period_divides_a_second() {
    assert_eq!(SensorNode::new(Config::new("a".to_string(), 10, None)).tick_period_nanos(), 100_000_000);
    assert_eq!(SensorNode::new(Config::new("a".to_string(), 3, None)).tick_period_nanos(), 333_333_333);
    assert_eq!(SensorNode::new(Config::new("a".to_string(), 1, None)).tick_period_nanos(), 1_000_000_000);
    assert_eq!(SensorNode::new(Config::new("a".to_string(), 7, None)).rate(), 7);
}

#[test]
fn tls_files_need_all_three() {
    assert_eq!(tls_files(Some(1), Some(2), Some(3)), Some((1, 2, 3)));
    assert_eq!(tls_files(Some(1), None, Some(3)), None);
    assert_eq!(tls_files::<u8>(None, None, None), None);
}
