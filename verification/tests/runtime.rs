use std::collections::HashSet;
use unyeong::retry::{Retry, RetryStep, BOOTSTRAP_ATTEMPTS, TALOS_API_ATTEMPTS};
use unyeong::scan::parse_active_ips;
use unyeong::utils::talosctl_wrapper::{HealthError, TalosctlWrapper};

#[test]
fn test_filter_management_ips() {
    // Mock data
    let mut n1_mgmt = HashSet::new();
    let mut n1_data = HashSet::new();
    let ip = "<TEST_IP>".to_string();

    // Simulate xeon mgmt
    n1_mgmt.insert(ip.clone());
    n1_data.insert(ip.clone());

    // Run logic
    for ip in &n1_mgmt {
        n1_data.remove(ip);
    }

    assert!(!n1_data.contains(&ip));
    assert!(n1_mgmt.contains(&ip));
}

#[test]
fn retry_succeeds_on_first_success() {
    let mut r = Retry::new(BOOTSTRAP_ATTEMPTS);
    assert_eq!(r.record(false), RetryStep::RetryAfterPause);
    assert_eq!(r.record(false), RetryStep::RetryAfterPause);
    assert_eq!(r.record(true), RetryStep::Done);
    assert_eq!(r.attempts, 3);
}

#[test]
fn retry_gives_up_after_max() {
    let mut r = Retry::new(TALOS_API_ATTEMPTS);
    for _ in 1..TALOS_API_ATTEMPTS {
        assert_eq!(r.record(false), RetryStep::RetryAfterPause);
    }
    assert_eq!(r.record(false), RetryStep::GiveUpAfterPause);
    assert_eq!(r.attempts, 30);
    assert_eq!(BOOTSTRAP_ATTEMPTS, 20);
}

#[test]
fn scan_report_parsing() {
    let report = "# Nmap 7.94 scan initiated\nHost: 10.0.0.2 ()\tStatus: Up\nHost: 10.0.0.2 ()\tPorts: 50000/open/tcp//\r\nHost:\n  Host:   10.0.0.7\n# Nmap done\n";
    assert_eq!(parse_active_ips(report), vec!["10.0.0.2", "10.0.0.2", "10.0.0.7"]);
    assert!(parse_active_ips("").is_empty());
    assert_eq!(parse_active_ips("Host: a b"), vec!["a"]);
    assert_eq!(parse_active_ips("x\u{3000}y Host:"), vec!["y"]);
}

#[test]
fn talosctl_arguments() {
    assert_eq!(
        TalosctlWrapper::get_resource_args("LinkStatus", "10.0.0.1", true),
        vec!["get", "LinkStatus", "--nodes", "10.0.0.1", "--endpoints", "10.0.0.1", "-o", "json", "--insecure"]
    );
    assert_eq!(TalosctlWrapper::get_resource_args("DeviceStatus", "h", false).len(), 8);
    assert_eq!(
        TalosctlWrapper::apply_config_args("h", "f.yaml", false),
        vec!["apply-config", "--nodes", "h", "--file", "f.yaml"]
    );
    assert_eq!(TalosctlWrapper::apply_config_args("h", "f", true).last().unwrap(), "--insecure");
    assert_eq!(TalosctlWrapper::bootstrap_args("h"), vec!["bootstrap", "--nodes", "h", "--endpoints", "h"]);
    assert_eq!(TalosctlWrapper::validate_args("f", "metal"), vec!["validate", "--config", "f", "--mode", "metal"]);
    assert_eq!(TalosctlWrapper::check_health_args("e", &[]), Err(HealthError::NoNodes));
    assert_eq!(
        TalosctlWrapper::check_health_args("e", &["n1".to_string(), "n2".to_string()]).unwrap(),
        vec!["health", "--endpoints", "e", "--nodes", "n1", "--wait-timeout", "10m"]
    );
}
