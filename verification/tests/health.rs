//! The health-check supervisor.
use plecto::health::{
    prepare_probe, request_for_probe, settle_probe, uri_of_probe, ProbeOutcome, ProbeSchedule,
};
use plecto::manifest::{
    AddressSpec, CircuitBreaker, HealthConfig, LbAlgorithm, OutlierDetection, Upstream,
};
use plecto::upstream::registry::UpstreamRegistry;

const MS: u64 = 1_000_000;

fn health(interval_ms: u64) -> HealthConfig {
    HealthConfig {
        path: "/healthz".to_string(),
        interval_ms,
        timeout_ms: 50,
        healthy_threshold: 1,
        unhealthy_threshold: 1,
        port: None,
    }
}

fn upstream(name: &str, addrs: &[&str], interval_ms: u64) -> Upstream {
    Upstream {
        name: name.to_string(),
        addresses: addrs
            .iter()
            .map(|s| AddressSpec::Bare(s.to_string()))
            .collect(),
        lb_algorithm: LbAlgorithm::RoundRobin,
        hash: None,
        health: health(interval_ms),
        request_timeout_ms: 30_000,
        max_retries: 1,
        overall_timeout_ms: 0,
        circuit_breaker: CircuitBreaker::default(),
        outlier_detection: OutlierDetection::default(),
    }
}

fn registry(ups: &[Upstream]) -> UpstreamRegistry {
    let mut reg = UpstreamRegistry::new();
    reg.reconcile(ups).unwrap();
    reg
}

fn due(schedule: &mut ProbeSchedule, reg: &UpstreamRegistry, now_ns: u64) -> Vec<(usize, u64)> {
    schedule
        .tick(reg, now_ns)
        .due
        .iter()
        .map(|t| (t.group, t.instance))
        .collect()
}

#[test]
fn a_new_instance_is_probed_at_once() {
    let reg = registry(&[upstream("u", &["a:1", "b:2"], 100)]);
    let ids = reg.group("u").unwrap().instances.clone();
    let mut schedule = ProbeSchedule::new();
    assert_eq!(due(&mut schedule, &reg, 7), [(0, ids[0]), (0, ids[1])]);
    assert!(due(&mut schedule, &reg, 8).is_empty());
}

#[test]
fn an_instance_is_probed_on_its_interval() {
    let reg = registry(&[upstream("u", &["a:1"], 100), upstream("v", &["b:2"], 300)]);
    let u = reg.group("u").unwrap().instances[0];
    let v = reg.group("v").unwrap().instances[0];
    let mut schedule = ProbeSchedule::new();
    assert_eq!(due(&mut schedule, &reg, 0), [(0, u), (1, v)]);
    assert!(due(&mut schedule, &reg, 100 * MS - 1).is_empty());
    assert_eq!(due(&mut schedule, &reg, 100 * MS), [(0, u)]);
    assert_eq!(due(&mut schedule, &reg, 300 * MS), [(0, u), (1, v)]);
}

#[test]
fn an_address_listed_twice_is_probed_once() {
    let reg = registry(&[upstream("u", &["a:1", "a:1"], 100)]);
    let mut schedule = ProbeSchedule::new();
    assert_eq!(due(&mut schedule, &reg, 0).len(), 1);
}

#[test]
fn a_vanished_instance_is_forgotten() {
    let mut reg = registry(&[upstream("u", &["a:1", "b:2"], 100)]);
    let mut schedule = ProbeSchedule::new();
    assert_eq!(due(&mut schedule, &reg, 0).len(), 2);
    reg.reconcile(&[upstream("u", &["b:2"], 100)]).unwrap();
    assert!(due(&mut schedule, &reg, 1).is_empty());
    reg.reconcile(&[upstream("u", &["a:1", "b:2"], 100)]).unwrap();
    let a = reg.group("u").unwrap().instances[0];
    assert_eq!(due(&mut schedule, &reg, 2), [(0, a)]);
}

#[test]
fn the_sleep_is_the_shortest_interval_within_bounds() {
    let sleep = |ups: &[Upstream]| ProbeSchedule::new().tick(&registry(ups), 0).sleep_ms;
    assert_eq!(sleep(&[]), 5000);
    assert_eq!(sleep(&[upstream("u", &["a:1"], 60_000)]), 5000);
    assert_eq!(sleep(&[upstream("u", &["a:1"], 250)]), 250);
    assert_eq!(sleep(&[upstream("u", &["a:1"], 0)]), 20);
    assert_eq!(
        sleep(&[upstream("u", &["a:1"], 400), upstream("v", &["b:2"], 90)]),
        90
    );
}

#[test]
fn a_zero_interval_counts_as_a_millisecond() {
    let reg = registry(&[upstream("u", &["a:1"], 0)]);
    let mut schedule = ProbeSchedule::new();
    assert_eq!(due(&mut schedule, &reg, 0).len(), 1);
    assert!(due(&mut schedule, &reg, MS - 1).is_empty());
    assert_eq!(due(&mut schedule, &reg, MS).len(), 1);
}

#[test]
fn a_probe_requests_the_path_of_the_policy() {
    let request = prepare_probe("127.0.0.1:9000", &health(100)).unwrap();
    assert_eq!(request.uri, "http://127.0.0.1:9000/healthz");
    assert_eq!(request.timeout_ms, 50);
    assert_eq!(uri_of_probe("a:1", &health(100)), "http://a:1/healthz");
}

#[test]
fn a_malformed_address_makes_no_probe() {
    assert!(prepare_probe("a b", &health(100)).is_none());
    assert!(prepare_probe("", &health(100)).is_none());
    assert!(request_for_probe("http://a:1/".to_string(), false, &health(100)).is_none());
}

#[test]
fn a_probe_has_a_millisecond_at_least() {
    let config = HealthConfig {
        timeout_ms: 0,
        ..health(100)
    };
    assert_eq!(prepare_probe("a:1", &config).unwrap().timeout_ms, 1);
    let request = request_for_probe("http://a:1/".to_string(), true, &config).unwrap();
    assert_eq!((request.uri.as_str(), request.timeout_ms), ("http://a:1/", 1));
}

#[test]
fn only_a_2xx_answer_is_a_success() {
    for (outcome, healthy) in [
        (ProbeOutcome::Answered(200), true),
        (ProbeOutcome::Answered(204), true),
        (ProbeOutcome::Answered(299), true),
        (ProbeOutcome::Answered(199), false),
        (ProbeOutcome::Answered(300), false),
        (ProbeOutcome::Answered(503), false),
        (ProbeOutcome::TimedOut, false),
        (ProbeOutcome::Failed, false),
        (ProbeOutcome::Malformed, false),
    ] {
        let mut reg = registry(&[upstream("u", &["a:1"], 100)]);
        let id = reg.group("u").unwrap().instances[0];
        settle_probe(&mut reg, id, outcome);
        assert_eq!(reg.instance(id).unwrap().is_healthy(), healthy, "{outcome:?}");
    }
}

#[test]
fn a_failed_probe_demotes() {
    let mut reg = registry(&[upstream("u", &["a:1"], 100)]);
    let id = reg.group("u").unwrap().instances[0];
    settle_probe(&mut reg, id, ProbeOutcome::Answered(200));
    settle_probe(&mut reg, id, ProbeOutcome::TimedOut);
    assert!(!reg.instance(id).unwrap().is_healthy());
}
