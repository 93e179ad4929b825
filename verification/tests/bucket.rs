//! Token-bucket arithmetic.
use plecto::bucket::{apply_bucket, Acquire, Bucket};

const SPEC: Bucket = Bucket {
    capacity: 10,
    refill_tokens: 3,
    refill_interval_ms: 1000,
};

fn allowed() -> Acquire {
    Acquire {
        allowed: true,
        retry_after_ms: 0,
    }
}

fn refused(retry_after_ms: u64) -> Acquire {
    Acquire {
        allowed: false,
        retry_after_ms,
    }
}

#[test]
fn an_unknown_bucket_is_full() {
    assert_eq!(apply_bucket(None, 1, SPEC, 500), ((9, 500), allowed()));
    assert_eq!(apply_bucket(None, 10, SPEC, 500), ((0, 500), allowed()));
}

#[test]
fn refills_come_in_whole_intervals() {
    assert_eq!(apply_bucket(Some((0, 0)), 1, SPEC, 999), ((0, 0), refused(1000)));
    assert_eq!(apply_bucket(Some((0, 0)), 1, SPEC, 1000), ((2, 1000), allowed()));
    assert_eq!(apply_bucket(Some((0, 0)), 1, SPEC, 2999), ((5, 2000), allowed()));
}

#[test]
fn refills_stop_at_the_capacity() {
    assert_eq!(apply_bucket(Some((9, 0)), 0, SPEC, 50_000), ((10, 50_000), allowed()));
    assert_eq!(apply_bucket(Some((0, 0)), 10, SPEC, 1_000_000), ((0, 1_000_000), allowed()));
}

#[test]
fn the_wait_covers_the_deficit() {
    assert_eq!(apply_bucket(Some((0, 0)), 4, SPEC, 0), ((0, 0), refused(2000)));
    assert_eq!(apply_bucket(Some((1, 0)), 4, SPEC, 0), ((1, 0), refused(1000)));
    let ((tokens, stamp), _) = apply_bucket(Some((0, 0)), 4, SPEC, 0);
    assert!(apply_bucket(Some((tokens, stamp)), 4, SPEC, 2000).1.allowed);
}

#[test]
fn a_backward_clock_adds_nothing() {
    assert_eq!(apply_bucket(Some((2, 5000)), 1, SPEC, 10), ((1, 5000), allowed()));
    assert_eq!(apply_bucket(Some((0, 5000)), 1, SPEC, 10), ((0, 5000), refused(5990)));
}

#[test]
fn a_step_back_between_refills_adds_nothing() {
    let (cell, _) = apply_bucket(Some((0, 0)), 1, SPEC, 2999);
    assert_eq!(cell, (5, 2000));
    for earlier in [2999, 2500, 2000, 1999, 0] {
        assert_eq!(apply_bucket(Some(cell), 0, SPEC, earlier).0, cell);
    }
}

#[test]
fn a_cost_over_the_capacity_is_never_met() {
    assert_eq!(apply_bucket(Some((10, 0)), 11, SPEC, 0), ((10, 0), refused(u64::MAX)));
}

#[test]
fn a_bucket_without_refill_is_never_met() {
    let spec = Bucket {
        refill_tokens: 0,
        ..SPEC
    };
    assert_eq!(apply_bucket(Some((0, 0)), 1, spec, 9000), ((0, 9000), refused(u64::MAX)));
}

#[test]
fn extreme_values_do_not_overflow() {
    let spec = Bucket {
        capacity: u64::MAX,
        refill_tokens: u64::MAX,
        refill_interval_ms: 1,
    };
    assert_eq!(
        apply_bucket(Some((u64::MAX, 0)), u64::MAX, spec, u64::MAX),
        ((0, u64::MAX), allowed())
    );
    let slow = Bucket {
        capacity: u64::MAX,
        refill_tokens: 1,
        refill_interval_ms: u64::MAX,
    };
    assert_eq!(apply_bucket(Some((0, 0)), 2, slow, 5), ((0, 0), refused(u64::MAX)));
}
