//! The stable hash.
use plecto::hash::{fmix64, hash64, murmur3_x64_128};
use std::collections::HashSet;

#[test]
fn deterministic_across_calls() {
    // The defining property for Maglev: the same bytes always hash the same (so the table and
    // every lookup agree, across processes/restarts).
    assert_eq!(
        murmur3_x64_128(b"127.0.0.1:9000", 0),
        murmur3_x64_128(b"127.0.0.1:9000", 0)
    );
    assert_eq!(hash64(b"user-42"), hash64(b"user-42"));
}

#[test]
fn distinct_inputs_diverge() {
    assert_ne!(hash64(b"a:1"), hash64(b"a:2"));
    assert_ne!(hash64(b""), hash64(b"\0"));
    let (l, h) = murmur3_x64_128(b"some-backend-name", 0);
    assert_ne!(l, h, "the two 64-bit halves are independent, not equal");
}

#[test]
fn handles_all_tail_lengths_without_panic() {
    // Tail handling covers lengths 0..16 (and beyond); exercise each so an off-by-one in the
    // byte-shift loop would surface (data-plane no-panic on arbitrary key bytes).
    for len in 0..40usize {
        let data: Vec<u8> = (0..len as u8).collect();
        let _ = murmur3_x64_128(&data, 0);
    }
}

#[test]
fn spreads_sequential_keys() {
    // Sequential keys (user-0, user-1, …) must not collide on a small modulus en masse — a coarse
    // dispersion guard for the key→slot mapping.
    let m = 97u64;
    let mut slots = HashSet::new();
    for i in 0..80 {
        slots.insert(hash64(format!("user-{i}").as_bytes()) % m);
    }
    assert!(
        slots.len() > 40,
        "sequential keys should spread across slots"
    );
}

#[test]
fn hash_of_nothing_is_zero() {
    assert_eq!(murmur3_x64_128(b"", 0), (0, 0));
    assert_eq!(fmix64(0), 0);
}

#[test]
fn hash_of_a_known_text() {
    assert_eq!(
        murmur3_x64_128(b"hello", 0),
        (0xcbd8_a7b3_41bd_9b02, 0x5b1e_906a_48ae_1d19)
    );
    assert_eq!(hash64(b"hello"), 0xcbd8_a7b3_41bd_9b02);
}

#[test]
fn hash_of_more_than_one_block() {
    assert_eq!(
        murmur3_x64_128(b"The quick brown fox jumps over the lazy dog", 0),
        (0xe34b_bc7b_bc07_1b6c, 0x7a43_3ca9_c49a_9347)
    );
}

#[test]
fn the_seed_matters() {
    assert_ne!(murmur3_x64_128(b"hello", 0), murmur3_x64_128(b"hello", 1));
}
