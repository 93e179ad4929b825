//! Reconciling the upstreams of a manifest.
use plecto::error::ControlError;
use plecto::manifest::{
    AddressSpec, CircuitBreaker, HashConfig, HashKeyKind, HealthConfig, LbAlgorithm, LbFault,
    OutlierDetection, Upstream,
};
use plecto::upstream::group::{HashKeySource, LbState};
use plecto::upstream::instance::UpstreamInstance;
use plecto::upstream::registry::{validate_upstreams, UpstreamRegistry};

fn health(healthy_threshold: u32, unhealthy_threshold: u32) -> HealthConfig {
    HealthConfig {
        path: "/healthz".to_string(),
        interval_ms: 100,
        timeout_ms: 50,
        healthy_threshold,
        unhealthy_threshold,
        port: None,
    }
}

fn upstream(name: &str, addrs: &[&str], h: HealthConfig) -> Upstream {
    Upstream {
        name: name.to_string(),
        addresses: addrs
            .iter()
            .map(|s| AddressSpec::Bare(s.to_string()))
            .collect(),
        lb_algorithm: LbAlgorithm::RoundRobin,
        hash: None,
        health: h,
        request_timeout_ms: 30_000,
        max_retries: 1,
        overall_timeout_ms: 0,
        circuit_breaker: CircuitBreaker::default(),
        outlier_detection: OutlierDetection::default(),
    }
}

fn hashing(name: &str, addrs: &[&str], table_size: u32) -> Upstream {
    Upstream {
        lb_algorithm: LbAlgorithm::Maglev,
        hash: Some(HashConfig {
            key: HashKeyKind::Header,
            header: Some("X-User".to_string()),
            table_size,
        }),
        ..upstream(name, addrs, health(1, 3))
    }
}

fn nth<'a>(reg: &'a UpstreamRegistry, name: &str, k: usize) -> &'a UpstreamInstance {
    let id = reg.group(name).unwrap().instances[k];
    reg.instance(id).unwrap()
}

#[test]
fn reconcile_preserves_unchanged_adds_new_drops_removed() {
    let mut reg = UpstreamRegistry::new();
    reg.reconcile(&[upstream("u", &["a:1", "b:2"], health(1, 3))])
        .unwrap();
    let g0 = reg.group("u").unwrap().instances.clone();
    reg.record_probe_success(g0[0]); // a:1 becomes healthy
    assert!(nth(&reg, "u", 0).is_healthy());

    // reload: drop b:2, keep a:1, add c:3 — same health policy
    reg.reconcile(&[upstream("u", &["a:1", "c:3"], health(1, 3))])
        .unwrap();
    let g1 = reg.group("u").unwrap();
    assert_eq!(g1.instances.len(), 2);
    assert!(
        nth(&reg, "u", 0).is_healthy(),
        "the unchanged a:1 keeps its health across reload"
    );
    assert_eq!(nth(&reg, "u", 1).address(), "c:3");
    assert!(
        !nth(&reg, "u", 1).is_healthy(),
        "the new c:3 starts pessimistic"
    );
    assert_eq!(g1.instances[0], g0[0]);
    reg.retire(&Vec::new());
    assert!(reg.instance(g0[1]).is_none());
}

#[test]
fn reconcile_changing_health_policy_reprobes_from_pessimistic() {
    let mut reg = UpstreamRegistry::new();
    reg.reconcile(&[upstream("u", &["a:1"], health(1, 3))])
        .unwrap();
    let id = reg.group("u").unwrap().instances[0];
    reg.record_probe_success(id);
    assert!(nth(&reg, "u", 0).is_healthy());

    // same address, different health policy → fresh pessimistic instance, new thresholds apply
    reg.reconcile(&[upstream("u", &["a:1"], health(2, 5))])
        .unwrap();
    assert!(
        !nth(&reg, "u", 0).is_healthy(),
        "a health-policy change re-probes the instance from pessimistic"
    );
}

#[test]
fn reconcile_rejects_empty_addresses_and_duplicate_names() {
    let mut reg = UpstreamRegistry::new();
    let empty = reg.reconcile(&[upstream("u", &[], health(1, 1))]);
    assert!(matches!(
        empty,
        Err(ControlError::EmptyUpstreamAddresses(_))
    ));

    let dup = reg.reconcile(&[
        upstream("u", &["a:1"], health(1, 1)),
        upstream("u", &["b:2"], health(1, 1)),
    ]);
    assert!(matches!(dup, Err(ControlError::DuplicateUpstream(_))));
}

#[test]
fn a_refused_manifest_changes_nothing() {
    let mut reg = UpstreamRegistry::new();
    reg.reconcile(&[upstream("u", &["a:1"], health(1, 1))])
        .unwrap();
    let id = reg.group("u").unwrap().instances[0];
    reg.record_probe_success(id);
    let refused = reg.reconcile(&[
        upstream("v", &["b:2"], health(1, 1)),
        upstream("w", &[], health(1, 1)),
    ]);
    assert!(matches!(refused, Err(ControlError::EmptyUpstreamAddresses(name)) if name == "w"));
    assert!(reg.group("v").is_none());
    assert_eq!(reg.group("u").unwrap().instances, [id]);
    assert!(reg.instance(id).unwrap().is_healthy());
    assert_eq!(reg.issued(), 1);
}

#[test]
fn faults_are_found_in_the_order_of_the_manifest() {
    let refused = validate_upstreams(&[
        upstream("u", &["a:1"], health(1, 1)),
        upstream("u", &["b:2"], health(1, 1)),
        upstream("v", &[], health(1, 1)),
    ]);
    assert!(matches!(refused, Err(ControlError::DuplicateUpstream(name)) if name == "u"));
    assert!(validate_upstreams(&[upstream("u", &["a:1"], health(1, 1))]).is_ok());
    assert!(validate_upstreams(&[]).is_ok());
}

fn lb_reason(up: Upstream) -> LbFault {
    match UpstreamRegistry::new().reconcile(&[up]) {
        Err(ControlError::InvalidUpstreamLb { reason, .. }) => reason,
        other => panic!("unexpected answer {other:?}"),
    }
}

#[test]
fn hashing_upstreams_are_checked() {
    let mut no_hash = hashing("u", &["a:1"], 7);
    no_hash.hash = None;
    assert_eq!(lb_reason(no_hash), LbFault::MissingHash);
    assert_eq!(lb_reason(hashing("u", &["a:1"], 0)), LbFault::TableNotPrime);
    assert_eq!(lb_reason(hashing("u", &["a:1"], 65_536)), LbFault::TableNotPrime);
    assert_eq!(lb_reason(hashing("u", &["a:1"], 5_000_012)), LbFault::TableTooLarge);
    let mut weightless = hashing("u", &[], 7);
    weightless.addresses = vec![AddressSpec::Weighted {
        address: "a:1".to_string(),
        weight: 0,
    }];
    assert_eq!(lb_reason(weightless), LbFault::NoWeight);
    assert!(hashing("u", &["a:1"], 65_537).validate_lb().is_ok());
}

#[test]
fn a_hashing_group_has_a_table_and_a_key() {
    let mut reg = UpstreamRegistry::new();
    reg.reconcile(&[hashing("u", &["a:1", "b:2"], 251)]).unwrap();
    let group = reg.group("u").unwrap();
    match &group.hash_key {
        Some(HashKeySource::Header(name)) => assert_eq!(name, "x-user"),
        other => panic!("unexpected key {other:?}"),
    }
    match &group.lb {
        LbState::Maglev(table) => {
            let owner = table.lookup(b"alice");
            assert!(owner < 2);
            assert_eq!(table.lookup(b"alice"), owner);
        }
        other => panic!("unexpected state {other:?}"),
    }
}

#[test]
fn a_changed_weight_makes_a_new_instance() {
    let weighted = |weight| {
        let mut up = upstream("u", &[], health(1, 3));
        up.addresses = vec![AddressSpec::Weighted {
            address: "a:1".to_string(),
            weight,
        }];
        up
    };
    let mut reg = UpstreamRegistry::new();
    reg.reconcile(&[weighted(2)]).unwrap();
    let before = reg.group("u").unwrap().instances[0];
    reg.reconcile(&[weighted(3)]).unwrap();
    let after = reg.group("u").unwrap().instances[0];
    assert_ne!(before, after);
    assert_eq!(nth(&reg, "u", 0).weight(), 3);
}

#[test]
fn the_rotation_survives_a_reload() {
    let ups = [upstream("u", &["a:1", "b:2"], health(1, 3))];
    let mut reg = UpstreamRegistry::new();
    reg.reconcile(&ups).unwrap();
    let first = reg.group("u").unwrap();
    assert_eq!(reg.take_turn(first.id), Some(0));
    assert_eq!(reg.take_turn(first.id), Some(1));
    reg.reconcile(&ups).unwrap();
    let second = reg.group("u").unwrap();
    assert_eq!(reg.take_turn(second.id), Some(2));
    assert_eq!(reg.take_turn(99), None);
}

#[test]
fn reloading_the_same_manifest_changes_nothing() {
    let ups = [
        upstream("u", &["a:1", "b:2"], health(1, 3)),
        upstream("v", &["a:1"], health(2, 2)),
    ];
    let mut reg = UpstreamRegistry::new();
    reg.reconcile(&ups).unwrap();
    let before: Vec<Vec<u64>> = reg.groups().iter().map(|g| g.instances.clone()).collect();
    reg.record_probe_success(before[1][0]);
    reg.reconcile(&ups).unwrap();
    let after: Vec<Vec<u64>> = reg.groups().iter().map(|g| g.instances.clone()).collect();
    assert_eq!(before, after);
    assert!(reg.instance(after[1][0]).unwrap().is_healthy());
    assert!(!reg.instance(after[0][0]).unwrap().is_healthy());
}

#[test]
fn a_dropped_upstream_comes_back_as_new() {
    let ups = [upstream("u", &["a:1"], health(1, 3))];
    let mut reg = UpstreamRegistry::new();
    reg.reconcile(&ups).unwrap();
    let first = reg.group("u").unwrap().instances[0];
    reg.record_probe_success(first);
    reg.reconcile(&[]).unwrap();
    assert!(reg.groups().is_empty());
    assert!(reg.instance(first).unwrap().is_healthy());
    reg.reconcile(&ups).unwrap();
    let second = reg.group("u").unwrap().instances[0];
    assert_ne!(first, second);
    assert!(!reg.instance(second).unwrap().is_healthy());
}

#[test]
fn the_manifest_order_is_kept() {
    let mut reg = UpstreamRegistry::new();
    reg.reconcile(&[
        upstream("z", &["a:1"], health(1, 1)),
        upstream("a", &["b:2"], health(1, 1)),
    ])
    .unwrap();
    let names: Vec<String> = reg.groups().iter().map(|g| g.name.clone()).collect();
    assert_eq!(names, ["z", "a"]);
}

#[test]
fn the_first_success_promotes() {
    let mut inst = UpstreamInstance::new("a:1".to_string(), 1, &health(5, 3));
    assert!(!inst.is_healthy());
    inst.record_probe_success();
    assert!(inst.is_healthy());
}

#[test]
fn failures_in_a_row_demote_and_successes_in_a_row_promote() {
    let mut inst = UpstreamInstance::new("a:1".to_string(), 1, &health(2, 3));
    inst.record_probe_success();
    inst.record_probe_failure();
    inst.record_probe_failure();
    assert!(inst.is_healthy());
    inst.record_probe_success();
    inst.record_probe_failure();
    inst.record_probe_failure();
    assert!(inst.is_healthy());
    inst.record_probe_failure();
    assert!(!inst.is_healthy());
    inst.record_probe_success();
    assert!(!inst.is_healthy());
    inst.record_probe_success();
    assert!(inst.is_healthy());
}

#[test]
fn probes_of_a_vanished_instance_are_ignored() {
    let mut reg = UpstreamRegistry::new();
    reg.reconcile(&[upstream("u", &["a:1"], health(1, 1))])
        .unwrap();
    reg.record_probe_success(99);
    reg.record_probe_failure(99);
    assert!(reg.instance(99).is_none());
    assert!(!nth(&reg, "u", 0).is_healthy());
}

#[test]
fn a_default_registry_is_empty() {
    let reg = UpstreamRegistry::default();
    assert!(reg.groups().is_empty());
    assert_eq!(reg.issued(), 0);
    assert!(reg.group("u").is_none());
}

#[test]
fn a_held_group_lives_on_with_its_instances() {
    let mut reg = UpstreamRegistry::new();
    reg.reconcile(&[upstream("u", &["a:1", "b:2"], health(1, 1))])
        .unwrap();
    let held = reg.group("u").unwrap();
    reg.record_probe_success(held.instances[1]);
    reg.reconcile(&[upstream("u", &["a:1"], health(1, 1))])
        .unwrap();
    reg.retire(&vec![held.clone()]);
    assert_eq!(held.instances.len(), 2);
    assert_eq!(reg.instance(held.instances[1]).unwrap().address(), "b:2");
    assert!(reg.instance(held.instances[1]).unwrap().is_healthy());
    // the instance that both groups have is one and the same
    reg.record_probe_success(held.instances[0]);
    assert!(nth(&reg, "u", 0).is_healthy());
    reg.record_probe_failure(held.instances[1]);
    assert!(!reg.instance(held.instances[1]).unwrap().is_healthy());
    reg.retire(&Vec::new());
    assert!(reg.instance(held.instances[1]).is_none());
    assert!(reg.instance(held.instances[0]).is_some());
}

#[test]
fn of_equal_addresses_the_first_instance_goes_on() {
    let ups = [upstream("u", &["a:1", "a:1"], health(1, 1))];
    let mut reg = UpstreamRegistry::new();
    reg.reconcile(&ups).unwrap();
    let before = reg.group("u").unwrap();
    assert_ne!(before.instances[0], before.instances[1]);
    reg.reconcile(&ups).unwrap();
    let after = reg.group("u").unwrap();
    assert_eq!(after.instances, [before.instances[0], before.instances[0]]);
}

#[test]
fn counters_are_carried_and_start_over() {
    let mut reg = UpstreamRegistry::new();
    reg.reconcile(&[upstream("u", &["a:1"], health(1, 1))])
        .unwrap();
    let held = reg.group("u").unwrap();
    reg.take_turn(held.id);
    reg.reconcile(&[
        upstream("u", &["c:3"], health(9, 9)),
        upstream("v", &["b:2"], health(1, 1)),
    ])
    .unwrap();
    let u = reg.counters(reg.group("u").unwrap().id).unwrap();
    let v = reg.counters(reg.group("v").unwrap().id).unwrap();
    assert_eq!((u.rr, u.in_flight), (1, 0));
    assert_eq!((v.rr, v.in_flight), (0, 0));
    assert!(reg.counters(99).is_none());
}

#[test]
fn a_held_group_keeps_a_counter_of_its_own() {
    let mut reg = UpstreamRegistry::new();
    reg.reconcile(&[upstream("u", &["a:1"], health(1, 1))])
        .unwrap();
    let held = reg.group("u").unwrap();
    assert_eq!(reg.take_turn(held.id), Some(0));
    reg.reconcile(&[upstream("u", &["a:1"], health(1, 1))])
        .unwrap();
    let fresh = reg.group("u").unwrap();
    assert_eq!(reg.take_turn(fresh.id), Some(1));
    assert_eq!(reg.take_turn(fresh.id), Some(2));
    assert_eq!(reg.take_turn(held.id), Some(1));
    reg.reconcile(&[]).unwrap();
    reg.retire(&vec![held.clone()]);
    assert_eq!(reg.take_turn(held.id), Some(2));
    assert_eq!(reg.take_turn(fresh.id), None);
    reg.retire(&Vec::new());
    assert_eq!(reg.take_turn(held.id), None);
}
