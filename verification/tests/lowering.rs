//! Lowering filter entries to load options.
use plecto::lowering::{
    BucketLimit, Destination, FilterEntry, IsolationKind, LoadOptions, Outbound, SchemeKind,
};

fn plain(isolation: IsolationKind) -> FilterEntry {
    FilterEntry {
        isolation,
        init_deadline_ms: None,
        request_deadline_ms: None,
        max_memory_bytes: None,
        ratelimit: None,
        outbound: None,
    }
}

#[test]
fn unset_knobs_keep_the_defaults() {
    for (isolation, expected) in [
        (IsolationKind::Trusted, LoadOptions::trusted()),
        (IsolationKind::Untrusted, LoadOptions::untrusted()),
    ] {
        let opts = plain(isolation).load_options();
        assert_eq!(opts.isolation, isolation);
        assert_eq!(format!("{opts:?}"), format!("{expected:?}"));
        assert!(opts.outbound.is_none());
    }
}

#[test]
fn every_knob_is_handed_on() {
    let limit = BucketLimit {
        capacity: 10,
        refill_tokens: 2,
        refill_interval_ms: 500,
    };
    let entry = FilterEntry {
        init_deadline_ms: Some(100),
        request_deadline_ms: Some(20),
        max_memory_bytes: Some(1 << 20),
        ratelimit: Some(limit),
        ..plain(IsolationKind::Untrusted)
    };
    let opts = entry.load_options();
    assert_eq!(opts.isolation, IsolationKind::Untrusted);
    assert_eq!(opts.init_deadline_ms, Some(100));
    assert_eq!(opts.request_deadline_ms, Some(20));
    assert_eq!(opts.max_memory_bytes, Some(1 << 20));
    assert_eq!(opts.ratelimit, Some(limit));
}

#[test]
fn destinations_get_the_port_of_their_scheme() {
    let destination = |scheme, host: &str, port| Destination {
        scheme,
        host: host.to_string(),
        port,
    };
    let entry = FilterEntry {
        outbound: Some(Outbound {
            allow: vec![
                destination(SchemeKind::Https, "a.example", None),
                destination(SchemeKind::Http, "b.example", None),
                destination(SchemeKind::Https, "c.example", Some(8443)),
            ],
            allow_private: vec!["10.0.0.0/8".to_string()],
            connect_timeout_ms: 1,
            total_timeout_ms: 2,
            max_response_bytes: 3,
            max_concurrent: 4,
        }),
        ..plain(IsolationKind::Trusted)
    };
    let outbound = entry.load_options().outbound.unwrap();
    let allow: Vec<(SchemeKind, &str, u16)> = outbound
        .allow
        .iter()
        .map(|a| (a.scheme, a.host.as_str(), a.port))
        .collect();
    assert_eq!(
        allow,
        [
            (SchemeKind::Https, "a.example", 443),
            (SchemeKind::Http, "b.example", 80),
            (SchemeKind::Https, "c.example", 8443),
        ]
    );
    assert_eq!(outbound.allow_private, ["10.0.0.0/8"]);
    assert_eq!(
        (
            outbound.connect_timeout_ms,
            outbound.total_timeout_ms,
            outbound.max_response_bytes,
            outbound.max_concurrent
        ),
        (1, 2, 3, 4)
    );
}
