//! The control plane and its snapshots.
use plecto::clock::{count_millis, count_nanos, now_millis, now_nanos};
use plecto::control::{Control, Observability};
use plecto::snapshot::{ActiveConfig, ConfigSnapshot};
use std::sync::Arc;

fn config(hash: &str) -> ActiveConfig {
    ActiveConfig {
        hash: hash.to_string(),
    }
}

fn control(admin_addr: Option<&str>, access_log: bool) -> Control {
    Control::new(
        Observability {
            admin_addr: admin_addr.map(|a| a.to_string()),
            access_log,
        },
        config("v1"),
    )
}

#[test]
fn observability_settings_are_read_back() {
    let on = control(Some("127.0.0.1:9901"), true);
    assert_eq!(on.admin_addr(), Some("127.0.0.1:9901"));
    assert!(on.access_log_enabled());
    let off = control(None, false);
    assert_eq!(off.admin_addr(), None);
    assert!(!off.access_log_enabled());
}

#[test]
fn a_snapshot_stays_pinned_across_reloads() {
    let mut control = control(None, true);
    let pinned = control.snapshot();
    control.activate(config("v2"));
    assert_eq!(pinned.config_version(), "v1");
    assert_eq!(control.snapshot().config_version(), "v2");
    control.activate(config("v3"));
    assert_eq!(pinned.config_version(), "v1");
    assert_eq!(control.snapshot().config_version(), "v3");
    assert!(control.access_log_enabled());
}

#[test]
fn a_snapshot_can_be_taken_of_a_shared_configuration() {
    let shared = Arc::new(config("abc"));
    let snapshot = ConfigSnapshot::new(shared.clone());
    drop(shared);
    assert_eq!(snapshot.config_version(), "abc");
}

#[test]
fn times_are_counted_in_their_unit() {
    assert_eq!(count_millis(None), 0);
    assert_eq!(count_nanos(None), 0);
    assert_eq!(count_millis(Some((7, 1_999_999))), 7001);
    assert_eq!(count_nanos(Some((7, 1_999_999))), 7_001_999_999);
    let far = u64::MAX;
    let millis = std::time::Duration::new(far, 5_000_000).as_millis() as u64;
    let nanos = std::time::Duration::new(far, 5).as_nanos() as u64;
    assert_eq!(count_millis(Some((far, 5_000_000))), millis);
    assert_eq!(count_nanos(Some((far, 5))), nanos);
}

#[test]
fn the_clock_counts_from_the_epoch() {
    let before = std::time::SystemTime::now()
        .duration_since(std::time::UNIX_EPOCH)
        .unwrap();
    let millis = now_millis();
    let nanos = now_nanos();
    assert!(u128::from(millis) >= before.as_millis());
    assert!(u128::from(millis) < before.as_millis() + 60_000);
    assert!(u128::from(nanos) >= before.as_nanos());
    assert!(u128::from(nanos) < before.as_nanos() + 60_000_000_000);
}
