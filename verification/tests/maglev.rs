//! Consistent hashing.
use plecto::hash::{hash64, murmur3_x64_128};
use plecto::maglev::MaglevTable;
use plecto::prime::check_prime;

/// A key for each slot of a table, so that every slot can be read.
fn keys_of_slots(m: u64) -> Vec<Vec<u8>> {
    let mut keys: Vec<Option<Vec<u8>>> = vec![None; m as usize];
    let mut i = 0u64;
    while keys.iter().any(|k| k.is_none()) {
        let key = format!("key-{i}").into_bytes();
        let slot = (hash64(&key) % m) as usize;
        keys[slot].get_or_insert(key);
        i += 1;
    }
    keys.into_iter().map(|k| k.unwrap()).collect()
}

fn owners(entries: &Vec<(&str, u32)>, m: usize) -> Vec<usize> {
    let table = MaglevTable::build(entries, m);
    keys_of_slots(m as u64)
        .iter()
        .map(|key| table.lookup(key))
        .collect()
}

#[test]
fn primes_are_told_from_other_numbers() {
    for p in [2u32, 3, 5, 7, 97, 251, 65_537, 5_000_011, 4_294_967_291] {
        assert!(check_prime(p), "{p}");
    }
    for n in [0u32, 1, 4, 9, 65_536, 65_535, 4_294_967_295, 4_294_836_225] {
        assert!(!check_prime(n), "{n}");
    }
}

#[test]
fn one_instance_owns_every_slot() {
    assert!(owners(&vec![("a:1", 1)], 13).iter().all(|o| *o == 0));
}

#[test]
fn equal_weights_share_evenly() {
    let owned = owners(&vec![("a:1", 1), ("b:2", 1), ("c:3", 1)], 97);
    for e in 0..3 {
        let count = owned.iter().filter(|o| **o == e).count();
        assert!((32..=33).contains(&count), "entry {e} owns {count}");
    }
}

#[test]
fn weights_set_the_shares() {
    let owned = owners(&vec![("a:1", 3), ("b:2", 1), ("c:3", 0)], 97);
    let counts: Vec<usize> = (0..3)
        .map(|e| owned.iter().filter(|o| **o == e).count())
        .collect();
    assert_eq!(counts.iter().sum::<usize>(), 97);
    assert!((72..=74).contains(&counts[0]), "{counts:?}");
    assert_eq!(counts[2], 0);
}

#[test]
fn the_first_turn_takes_the_first_preference() {
    let m = 13u64;
    let (low, _) = murmur3_x64_128(b"a:1", 0);
    let owned = owners(&vec![("a:1", 1), ("b:2", 1)], m as usize);
    assert_eq!(owned[(low % m) as usize], 0);
}

#[test]
fn a_table_is_the_same_every_time() {
    let entries = vec![("a:1", 2), ("b:2", 1)];
    assert_eq!(owners(&entries, 53), owners(&entries, 53));
}

#[test]
fn most_keys_stay_when_an_instance_leaves() {
    let before = owners(&vec![("a:1", 1), ("b:2", 1), ("c:3", 1), ("d:4", 1)], 251);
    let after = owners(&vec![("a:1", 1), ("b:2", 1), ("c:3", 1)], 251);
    let kept = (0..251)
        .filter(|s| before[*s] != 3 && before[*s] == after[*s])
        .count();
    assert!(kept > 120, "only {kept} slots stayed");
}

#[test]
fn entries_of_equal_weight_differ_by_one_slot_at_most() {
    let owned = owners(&vec![("a:1", 2), ("b:2", 5), ("c:3", 2), ("d:4", 5)], 101);
    let count = |e: usize| owned.iter().filter(|o| **o == e).count() as i64;
    assert!((count(0) - count(2)).abs() <= 1);
    assert!((count(1) - count(3)).abs() <= 1);
    assert!(count(1) > 2 * count(0) - 2);
}
