//! The native rate limiter.
use plecto::bucket::Bucket;
use plecto::ratelimit::{
    charge, fresh_cells, ip_key_bytes, slot_for_hash, IpAddr, NativeRateLimit, RateLimitDecision,
    RateLimitKeyKind, RouteRateLimit, IP_SLOTS,
};

fn v6_group(out: &mut Vec<u8>, groups: &str) {
    for group in groups.split(':').filter(|g| !g.is_empty()) {
        let word = u16::from_str_radix(group, 16).unwrap();
        out.extend_from_slice(&word.to_be_bytes());
    }
}

fn ip(s: &str) -> IpAddr {
    if s.contains(':') {
        let (head, tail) = s.split_once("::").unwrap_or((s, ""));
        let mut front = Vec::new();
        let mut back = Vec::new();
        v6_group(&mut front, head);
        v6_group(&mut back, tail);
        let mut octets = [0u8; 16];
        octets[..front.len()].copy_from_slice(&front);
        octets[16 - back.len()..].copy_from_slice(&back);
        IpAddr::V6(octets)
    } else {
        let octets: Vec<u8> = s.split('.').map(|o| o.parse().unwrap()).collect();
        IpAddr::V4([octets[0], octets[1], octets[2], octets[3]])
    }
}

fn route_limit(rate: u64, burst: u64, key: RateLimitKeyKind) -> NativeRateLimit {
    NativeRateLimit::new(RouteRateLimit { rate, burst, key })
}

#[test]
fn route_bucket_starts_full_drains_then_refills() {
    // burst = 3, rate = 2/s, route-keyed (one shared bucket). At a pinned clock the bucket
    // starts full (the zero cell refills from epoch), so the first 3 consume, the 4th is denied.
    let mut rl = route_limit(2, 3, RateLimitKeyKind::Route);
    let peer = ip("203.0.113.7");
    let t0 = 1_000_000;
    for _ in 0..3 {
        assert_eq!(rl.check_at(peer, t0), RateLimitDecision::Allow);
    }
    match rl.check_at(peer, t0) {
        RateLimitDecision::Limit { retry_after_ms } => {
            // 1 token needed, 2/s refill, 1000ms interval → one whole interval away.
            assert_eq!(retry_after_ms, 1000);
        }
        RateLimitDecision::Allow => panic!("4th request over a burst of 3 must be limited"),
    }
    // After one refill interval, `rate` tokens are back.
    assert_eq!(rl.check_at(peer, t0 + 1000), RateLimitDecision::Allow);
    assert_eq!(rl.check_at(peer, t0 + 1000), RateLimitDecision::Allow);
    assert_eq!(
        rl.check_at(peer, t0 + 1000),
        RateLimitDecision::Limit {
            retry_after_ms: 1000
        },
        "only `rate` (2) tokens refill per interval, capped well under the 4th"
    );
}

#[test]
fn client_ip_drains_one_peer_independently() {
    // Same peer drains its own bucket deterministically (same slot every time).
    let mut rl = route_limit(1, 2, RateLimitKeyKind::ClientIp);
    let a = ip("198.51.100.1");
    let t0 = 5_000_000;
    assert_eq!(rl.check_at(a, t0), RateLimitDecision::Allow);
    assert_eq!(rl.check_at(a, t0), RateLimitDecision::Allow);
    assert!(matches!(
        rl.check_at(a, t0),
        RateLimitDecision::Limit { .. }
    ));
}

#[test]
fn client_ip_isolates_distinct_peers() {
    // Drain one peer's bucket, then a wide sample of other peers must still pass: only the few
    // (≈0) colliding with the drained slot could be affected. With 256 distinct IPs over 65536
    // slots, the expected collisions with one slot is ~0, so the generous bound is deterministic.
    let mut rl = route_limit(1, 1, RateLimitKeyKind::ClientIp);
    let t0 = 7_000_000;
    let drained = ip("192.0.2.255");
    assert_eq!(rl.check_at(drained, t0), RateLimitDecision::Allow);
    assert!(
        matches!(rl.check_at(drained, t0), RateLimitDecision::Limit { .. }),
        "the drained peer is now limited"
    );

    let allowed = (0..=255u8)
        .map(|n| IpAddr::V4([192, 0, 2, n]))
        .filter(|p| *p != drained)
        .filter(|p| rl.check_at(*p, t0) == RateLimitDecision::Allow)
        .count();
    assert!(
        allowed >= 250,
        "distinct peers get independent buckets (got {allowed}/255 allowed)"
    );
}

#[test]
fn ipv4_mapped_v6_collapses_to_v4_key() {
    // A dual-stack listener sees an IPv4 client as `::ffff:a.b.c.d`; it must key identically to
    // the bare v4 form so the client is one bucket, matching the emitted X-Forwarded-For.
    let v4 = ip("198.51.100.9");
    let mapped = IpAddr::V6([0, 0, 0, 0, 0, 0, 0, 0, 0, 0, 0xff, 0xff, 198, 51, 100, 9]);
    assert_eq!(ip_key_bytes(v4), ip_key_bytes(mapped));
    assert_eq!(ip_key_bytes(v4), [198, 51, 100, 9, 0, 0, 0, 0]);
}

#[test]
fn ipv6_key_is_the_64_prefix() {
    // Two addresses sharing a /64 collapse to the same key; a different /64 does not.
    let a = ip("2001:db8:abcd:1::1");
    let b = ip("2001:db8:abcd:1:ffff:ffff:ffff:ffff");
    let other = ip("2001:db8:abcd:2::1");
    assert_eq!(ip_key_bytes(a), ip_key_bytes(b));
    assert_ne!(ip_key_bytes(a), ip_key_bytes(other));
    assert_eq!(
        ip_key_bytes(a),
        [0x20, 0x01, 0x0d, 0xb8, 0xab, 0xcd, 0x00, 0x01]
    );
}

#[test]
fn almost_mapped_addresses_are_not_mapped() {
    let mut octets = [0u8; 16];
    octets[10] = 0xff;
    octets[11] = 0xfe;
    octets[12] = 9;
    assert_eq!(ip_key_bytes(IpAddr::V6(octets)), [0; 8]);
    octets[11] = 0xff;
    assert_eq!(ip_key_bytes(IpAddr::V6(octets)), [9, 0, 0, 0, 0, 0, 0, 0]);
    octets[9] = 1;
    assert_eq!(ip_key_bytes(IpAddr::V6(octets)), [0; 8]);
}

#[test]
fn slots_are_the_low_bits() {
    assert_eq!(slot_for_hash(0), 0);
    assert_eq!(slot_for_hash(65_535), 65_535);
    assert_eq!(slot_for_hash(65_536), 0);
    assert_eq!(slot_for_hash(u64::MAX), IP_SLOTS - 1);
}

#[test]
fn a_peer_keeps_its_slot() {
    let rl = route_limit(1, 1, RateLimitKeyKind::ClientIp);
    let peer = ip("198.51.100.9");
    let slot = rl.slot(peer);
    assert!(slot < IP_SLOTS);
    for _ in 0..100 {
        assert_eq!(rl.slot(peer), slot);
    }
    let mapped = IpAddr::V6([0, 0, 0, 0, 0, 0, 0, 0, 0, 0, 0xff, 0xff, 198, 51, 100, 9]);
    assert_eq!(rl.slot(mapped), slot);
}

#[test]
fn peers_spread_over_the_table() {
    let rl = route_limit(1, 1, RateLimitKeyKind::ClientIp);
    let mut slots: Vec<usize> = (0..=255u8)
        .map(|n| rl.slot(IpAddr::V4([10, 0, 0, n])))
        .collect();
    slots.sort_unstable();
    slots.dedup();
    assert!(slots.len() > 200, "only {} slots are used", slots.len());
}

#[test]
fn limiters_have_seeds_of_their_own() {
    let slots: Vec<usize> = (0..16)
        .map(|_| route_limit(1, 1, RateLimitKeyKind::ClientIp).slot(ip("192.0.2.1")))
        .collect();
    assert!(slots.iter().any(|s| *s != slots[0]));
}

#[test]
fn the_key_sets_the_number_of_buckets() {
    let route = route_limit(1, 1, RateLimitKeyKind::Route);
    assert_eq!(route.slots(), 1);
    assert_eq!(fresh_cells(RateLimitKeyKind::Route), [(0, 0)]);
    let mut clients = route_limit(1, 1, RateLimitKeyKind::ClientIp);
    assert_eq!(clients.slots(), 65_536);
    let cells = fresh_cells(RateLimitKeyKind::ClientIp);
    assert_eq!(cells.len(), 65_536);
    assert!(cells.iter().all(|c| *c == (0, 0)));
    for n in 0..=255u8 {
        clients.check_at(IpAddr::V4([10, 0, 0, n]), 1_000_000);
    }
    assert_eq!(clients.slots(), 65_536);
}

#[test]
fn a_route_limiter_has_one_bucket() {
    let mut rl = route_limit(1, 2, RateLimitKeyKind::Route);
    let t0 = 1_000_000;
    assert_eq!(rl.slot(ip("192.0.2.1")), 0);
    assert_eq!(rl.check_at(ip("192.0.2.1"), t0), RateLimitDecision::Allow);
    assert_eq!(rl.check_at(ip("192.0.2.2"), t0), RateLimitDecision::Allow);
    assert_eq!(
        rl.check_at(ip("192.0.2.3"), t0),
        RateLimitDecision::Limit {
            retry_after_ms: 1000
        }
    );
}

#[test]
fn a_request_is_charged_to_its_bucket() {
    let spec = Bucket {
        capacity: 2,
        refill_tokens: 1,
        refill_interval_ms: 1000,
    };
    assert_eq!(
        charge((0, 0), spec, 5000),
        ((1, 5000), RateLimitDecision::Allow)
    );
    assert_eq!(
        charge((0, 5000), spec, 5000),
        (
            (0, 5000),
            RateLimitDecision::Limit {
                retry_after_ms: 1000
            }
        )
    );
}

#[test]
fn the_wall_clock_limiter_refuses_a_flood() {
    let mut rl = route_limit(1, 3, RateLimitKeyKind::Route);
    let peer = ip("203.0.113.7");
    let answers: Vec<RateLimitDecision> = (0..100).map(|_| rl.check(peer)).collect();
    assert_eq!(answers[0], RateLimitDecision::Allow);
    assert!(answers
        .iter()
        .any(|a| matches!(a, RateLimitDecision::Limit { .. })));
}

#[test]
fn keys_have_names() {
    assert_eq!(RateLimitKeyKind::Route.name(), "route");
    assert_eq!(RateLimitKeyKind::ClientIp.name(), "client-ip");
}

#[test]
fn a_refused_client_is_served_after_the_advised_time() {
    let mut rl = route_limit(2, 1, RateLimitKeyKind::Route);
    let peer = ip("203.0.113.7");
    assert_eq!(rl.check_at(peer, 1_000_000), RateLimitDecision::Allow);
    // the clock steps back, and the advice covers what it has to catch up with
    for now in [1_000_000, 999_500, 0] {
        match rl.check_at(peer, now) {
            RateLimitDecision::Limit { retry_after_ms } => {
                assert_eq!(retry_after_ms, 1_001_000 - now);
            }
            RateLimitDecision::Allow => panic!("a step back refills nothing"),
        }
    }
    assert!(matches!(
        rl.check_at(peer, 1_000_999),
        RateLimitDecision::Limit { .. }
    ));
    assert_eq!(rl.check_at(peer, 1_001_000), RateLimitDecision::Allow);
}

#[test]
fn a_leap_of_the_clock_grants_a_burst_at_most() {
    let mut rl = route_limit(5, 3, RateLimitKeyKind::ClientIp);
    let peer = ip("198.51.100.9");
    let allowed = |rl: &mut NativeRateLimit, now| {
        (0..20)
            .filter(|_| rl.check_at(peer, now) == RateLimitDecision::Allow)
            .count()
    };
    assert_eq!(allowed(&mut rl, 1_000_000), 3);
    assert_eq!(allowed(&mut rl, u64::MAX), 3);
}

#[test]
fn addresses_of_one_network_draw_on_one_bucket() {
    let mut rl = route_limit(1, 2, RateLimitKeyKind::ClientIp);
    let t0 = 5_000_000;
    assert_eq!(
        rl.check_at(ip("2001:db8:abcd:1::1"), t0),
        RateLimitDecision::Allow
    );
    assert_eq!(
        rl.check_at(ip("2001:db8:abcd:1::2"), t0),
        RateLimitDecision::Allow
    );
    assert!(matches!(
        rl.check_at(ip("2001:db8:abcd:1::3"), t0),
        RateLimitDecision::Limit { .. }
    ));
}
