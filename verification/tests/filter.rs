use bloom_filter::BloomFilter;
use rand::RngExt;
use std::collections::HashSet;

// e^(-filter_sz/inserts_num * (ln2)^2)
fn false_pos_prob(filter_sz: usize, inserts_num: usize) -> f64 {
    let e = std::f64::consts::E;
    let ln2sq = std::f64::consts::LN_2.powi(2);
    let f_sz = filter_sz as f64;
    let ins_cnt = inserts_num as f64;
    let power = -(f_sz / ins_cnt as f64 * ln2sq);
    e.powf(power)
}

#[test]
fn stress_test() {
    let inserts_count: usize = 1000;
    let reads_count: usize = 100000;
    let filter_size: usize = 4096;
    let mut rng = rand::rng();
    let mut bf = BloomFilter::new(filter_size, inserts_count).unwrap();
    println!(
        "False positive probability: {}",
        false_pos_prob(filter_size, inserts_count)
    );
    let mut inserted = HashSet::new();
    for _ in 0..inserts_count {
        let data: u64 = rng.random();
        bf.insert(&data.to_le_bytes());
        inserted.insert(data);
        assert!(bf.contains(&data.to_le_bytes()));
    }
    let mut false_positives: usize = 0;
    for _ in 0..reads_count {
        let data: u64 = rng.random();
        if !inserted.contains(&data) && bf.contains(&data.to_le_bytes()) {
            false_positives += 1;
        }
        if !bf.contains(&data.to_le_bytes()) {
            assert!(!inserted.contains(&data));
        }
    }
    println!(
        "False positives: {} out of {} reads ({}%)",
        false_positives,
        reads_count,
        false_positives as f64 / reads_count as f64 * 100.0
    );
}

#[test]
fn rejects_too_small_capacity() {
    assert!(BloomFilter::new(4, 10).is_none());
}

#[test]
fn rejects_non_power_of_two_capacity() {
    assert!(BloomFilter::new(100, 10).is_none());
    assert!(BloomFilter::new(4095, 10).is_none());
}

#[test]
fn rejects_zero_expected_inserts() {
    assert!(BloomFilter::new(4096, 0).is_none());
}

#[test]
fn accepts_minimal_capacity() {
    assert!(BloomFilter::new(8, 1).is_some());
}

#[test]
fn hash_count_matches_formula() {
    // ceil((4096 / 1000) * ln 2) == ceil(2.839...) == 3
    let bf = BloomFilter::new(4096, 1000).unwrap();
    assert_eq!(bf.hash_functions_num(), 3);
    // ceil((8 / 1) * ln 2) == ceil(5.545...) == 6
    let small = BloomFilter::new(8, 1).unwrap();
    assert_eq!(small.hash_functions_num(), 6);
}

#[test]
fn empty_filter_contains_nothing() {
    let bf = BloomFilter::new(4096, 1000).unwrap();
    for i in 0..1000u64 {
        assert!(!bf.contains(&i.to_le_bytes()));
    }
    assert!(!bf.contains(&[]));
}

#[test]
fn insert_then_contains() {
    let mut bf = BloomFilter::new(4096, 1000).unwrap();
    for i in 0..100u64 {
        bf.insert(&i.to_le_bytes());
    }
    for i in 0..100u64 {
        assert!(bf.contains(&i.to_le_bytes()));
    }
}

#[test]
fn empty_item_roundtrip() {
    let mut bf = BloomFilter::new(4096, 1000).unwrap();
    bf.insert(&[]);
    assert!(bf.contains(&[]));
}

#[test]
fn distinct_item_not_reported_after_single_insert() {
    let mut bf = BloomFilter::new(4096, 1000).unwrap();
    bf.insert(&1u64.to_le_bytes());
    // with only 3 of 4096 bits set, a fixed different item probes an unset
    // bit; this would fail if hashing collapsed all items together
    assert!(!bf.contains(&2u64.to_le_bytes()));
}

#[test]
fn contains_is_deterministic() {
    let mut rng = rand::rng();
    let mut bf = BloomFilter::new(4096, 1000).unwrap();
    for _ in 0..100 {
        let data: u64 = rng.random();
        bf.insert(&data.to_le_bytes());
    }
    for _ in 0..1000 {
        let probe: u64 = rng.random();
        let first = bf.contains(&probe.to_le_bytes());
        let second = bf.contains(&probe.to_le_bytes());
        assert_eq!(first, second);
    }
}

#[test]
fn insert_is_idempotent() {
    let mut rng = rand::rng();
    let mut once = BloomFilter::new(4096, 100).unwrap();
    let mut twice = BloomFilter::new(4096, 100).unwrap();
    for i in 0..50u64 {
        once.insert(&i.to_le_bytes());
        twice.insert(&i.to_le_bytes());
        twice.insert(&i.to_le_bytes());
    }
    // the two filters answer identically on every probe
    for _ in 0..10000 {
        let probe: u64 = rng.random();
        assert_eq!(
            once.contains(&probe.to_le_bytes()),
            twice.contains(&probe.to_le_bytes())
        );
    }
    for i in 0..50u64 {
        assert!(twice.contains(&i.to_le_bytes()));
    }
}

#[test]
fn contains_never_flips_back() {
    let mut rng = rand::rng();
    let mut bf = BloomFilter::new(4096, 1000).unwrap();
    for _ in 0..200 {
        let data: u64 = rng.random();
        bf.insert(&data.to_le_bytes());
    }
    let probes: Vec<u64> = (0..2000u64).collect();
    let before: Vec<bool> = probes
        .iter()
        .map(|p| bf.contains(&p.to_le_bytes()))
        .collect();
    for _ in 0..200 {
        let data: u64 = rng.random();
        bf.insert(&data.to_le_bytes());
    }
    for (p, was_in) in probes.iter().zip(before.iter()) {
        if *was_in {
            assert!(bf.contains(&p.to_le_bytes()));
        }
    }
}

#[test]
fn false_positive_rate_bounded() {
    let mut rng = rand::rng();
    let mut bf = BloomFilter::new(4096, 1000).unwrap();
    let mut inserted = HashSet::new();
    while inserted.len() < 1000 {
        let data: u64 = rng.random();
        if inserted.insert(data) {
            bf.insert(&data.to_le_bytes());
        }
    }
    let mut false_positives: usize = 0;
    let mut probes: usize = 0;
    while probes < 100000 {
        let data: u64 = rng.random();
        if !inserted.contains(&data) {
            probes += 1;
            if bf.contains(&data.to_le_bytes()) {
                false_positives += 1;
            }
        }
    }
    let theoretical = false_pos_prob(4096, 1000);
    let measured = false_positives as f64 / probes as f64;
    assert!(measured <= 3.0 * theoretical);
}
