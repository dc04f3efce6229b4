use std::collections::HashMap;
use std::collections::HashSet;

use dataplane::sch::bloom_check_tag;
use dataplane::sch::bloom_tag_table;
use dataplane::sch::build;
use dataplane::sch::compute_table_params;
use dataplane::sch::BuildConfig;
use dataplane::sch::DirectoryEntry;
use dataplane::sch::HashPair;
use dataplane::sch::LocalCollector;
use dataplane::sch::UnchainedHashTable;

const STRIDE: usize = 16; // key (u64) + one payload (u64)

// -- Bloom filter tests -------------------------------------------------

#[test]
fn bloom_table_all_popcount_4() {
    let tags = bloom_tag_table();
    for (i, &mask) in tags.iter().enumerate() {
        assert_eq!(mask.count_ones(), 4, "entry {i} = {mask:#06x}");
    }
}

#[test]
fn bloom_first_1820_distinct() {
    let tags = bloom_tag_table();
    let mut seen = HashSet::new();
    for &mask in &tags[..1820] {
        assert!(seen.insert(mask));
    }
}

#[test]
fn bloom_self_check() {
    let tags = bloom_tag_table();
    for &mask in tags.iter() {
        assert!(bloom_check_tag(mask, mask));
    }
}

#[test]
fn bloom_empty_rejects() {
    let tags = bloom_tag_table();
    for &mask in tags.iter() {
        assert!(!bloom_check_tag(mask, 0));
    }
}

// -- Hash tests ---------------------------------------------------------

#[test]
fn hash_zero() {
    let h = HashPair::hash(0);
    assert_eq!(h.slot, 0);
    assert_eq!(h.filter, 0);
}

#[test]
fn hash_filter_is_low_bits() {
    for key in 0..10_000 {
        let h = HashPair::hash(key);
        assert_eq!(h.filter, h.slot as u32);
    }
}

#[test]
fn hash_no_catastrophic_collisions() {
    let mut seen = HashSet::new();
    for key in 0..10_000_u32 {
        seen.insert(HashPair::hash(key).slot);
    }
    assert!(seen.len() > 9_900);
}

// -- Directory entry tests ----------------------------------------------

#[test]
fn directory_round_trip() {
    let e = DirectoryEntry::new(123456, 0xABCD);
    assert_eq!(e.offset(), 123456);
    assert_eq!(e.bloom(), 0xABCD);
}

#[test]
fn directory_with_tag_preserves_offset() {
    let e = DirectoryEntry::new(999, 0).with_tag(0b1111);
    assert_eq!(e.offset(), 999);
    assert_eq!(e.bloom(), 0b1111);
}

#[test]
fn directory_add_offset_preserves_bloom() {
    let e = DirectoryEntry::new(100, 0xFFFF).add_offset(50);
    assert_eq!(e.offset(), 150);
    assert_eq!(e.bloom(), 0xFFFF);
}

#[test]
fn sizing_basics() {
    let (size, shift) = compute_table_params(0);
    assert_eq!(size, 16);
    assert_eq!(shift, 60);

    for n in [100, 10_000, 1_000_000] {
        let (size, shift) = compute_table_params(n);
        assert!(size.is_power_of_two());
        assert!(size >= n);
        assert_eq!(1_usize << (64 - shift), size);
    }
}

// -- Probe tests ---------------------------------------------------------

fn build_single(tuples: &[(u32, u64)]) -> UnchainedHashTable {
    let config = BuildConfig::new(STRIDE);
    let mut c = LocalCollector::new(&config);
    for &(key, payload) in tuples {
        c.insert(key, &[payload]);
    }
    build(vec![c], &config)
}

fn build_multi(tuples: &[(u32, u64)], num_collectors: usize) -> UnchainedHashTable {
    let config = BuildConfig::new(STRIDE);
    let chunk_size = (tuples.len() + num_collectors - 1) / num_collectors;
    let collectors: Vec<LocalCollector> = tuples
        .chunks(chunk_size)
        .map(|chunk| {
            let mut c = LocalCollector::new(&config);
            for &(key, payload) in chunk {
                c.insert(key, &[payload]);
            }
            c
        })
        .collect();
    build(collectors, &config)
}

#[test]
fn probe_single_match() {
    let table = build_single(&[(42, 100)]);
    let found: Vec<(u64, u64)> = table.probe(42).1.iter().map(|t| (t[0], t[1])).collect();
    assert_eq!(found, vec![(42, 100)]);
}

#[test]
fn probe_absent_key() {
    let table = build_single(&[(42, 100)]);
    let found = !table.probe(99).1.is_empty();
    assert!(!found);
}

#[test]
fn probe_duplicates() {
    let table = build_single(&[(10, 1), (10, 2), (20, 3)]);
    let mut found: Vec<u64> = table.probe(10).1.iter().map(|t| t[1]).collect();
    found.sort();
    assert_eq!(found, vec![1, 2]);
}

#[test]
fn probe_all_keys() {
    let data: Vec<(u32, u64)> = (0..100).map(|i| (i, i as u64 * 10)).collect();
    let table = build_single(&data);
    for &(key, payload) in &data {
        let mut found = false;
        for t in table.probe(key).1 {
            assert_eq!(t[0], key as u64);
            assert_eq!(t[1], payload);
            found = true;
        }
        assert!(found, "key {key} not found");
    }
}

// -- Build tests ----------------------------------------------------------

fn verify_all_present(table: &UnchainedHashTable, tuples: &[(u32, u64)]) {
    let mut expected: HashMap<u32, Vec<u64>> = HashMap::new();
    for &(key, payload) in tuples {
        expected.entry(key).or_default().push(payload);
    }
    for (&key, expected_payloads) in &expected {
        let mut found = Vec::new();
        for t in table.probe(key).1 {
            assert_eq!(t[0], key as u64);
            found.push(t[1]);
        }
        found.sort();
        let mut sorted = expected_payloads.clone();
        sorted.sort();
        assert_eq!(found, sorted, "mismatch for key {key}");
    }
}

#[test]
fn build_empty() {
    let config = BuildConfig::new(STRIDE);
    let c = LocalCollector::new(&config);
    let table = build(vec![c], &config);
    let found = !table.probe(42).1.is_empty();
    assert!(!found);
}

#[test]
fn build_single_tuple() {
    let table = build_single(&[(42, 100)]);
    verify_all_present(&table, &[(42, 100)]);
}

#[test]
fn build_no_false_negatives() {
    let data: Vec<(u32, u64)> = (0..1000).map(|i| (i, i as u64 * 10)).collect();
    let table = build_single(&data);
    verify_all_present(&table, &data);
}

#[test]
fn build_duplicates() {
    let data = vec![(10, 1), (10, 2), (10, 3), (20, 4), (20, 5), (30, 6)];
    let table = build_single(&data);
    verify_all_present(&table, &data);
}

#[test]
fn build_absent_keys() {
    let data: Vec<(u32, u64)> = (0..100).map(|i| (i * 2, 0)).collect();
    let table = build_single(&data);
    for i in 0..100 {
        let found = !table.probe(i * 2 + 1).1.is_empty();
        assert!(!found, "false match for key {}", i * 2 + 1);
    }
}

#[test]
fn build_four_collectors() {
    let data: Vec<(u32, u64)> = (0..5000).map(|i| (i, i as u64 * 7)).collect();
    let table = build_multi(&data, 4);
    verify_all_present(&table, &data);
}

#[test]
fn build_eight_collectors_duplicates() {
    let data: Vec<(u32, u64)> = (0..5000).map(|i| ((i % 1000) as u32, i as u64)).collect();
    let table = build_multi(&data, 8);
    verify_all_present(&table, &data);
}

#[test]
fn build_sixteen_collectors() {
    let data: Vec<(u32, u64)> = (0..10000).map(|i| (i, i as u64)).collect();
    let table = build_multi(&data, 16);
    verify_all_present(&table, &data);
}

#[test]
fn build_collector_split_equivalence() {
    // building from many collectors yields the same probe results as one
    let data: Vec<(u32, u64)> = (0..2000).map(|i| ((i % 500) as u32, i as u64 * 3)).collect();
    let one = build_single(&data);
    let four = build_multi(&data, 4);
    for key in 0..500u32 {
        let mut a: Vec<u64> = one.probe(key).1.iter().map(|t| t[1]).collect();
        let mut b: Vec<u64> = four.probe(key).1.iter().map(|t| t[1]).collect();
        a.sort();
        b.sort();
        assert_eq!(a, b, "mismatch for key {key}");
    }
}

#[test]
fn build_bloom_no_false_negatives() {
    let data: Vec<(u32, u64)> = (0..10000).map(|i| (i, 0)).collect();
    let table = build_single(&data);
    for &(key, _) in &data {
        assert!(table.bloom_check(key), "bloom rejected key {key}");
    }
}

#[test]
fn build_tuple_count() {
    let config = BuildConfig::new(STRIDE);
    let mut c = LocalCollector::new(&config);
    for i in 0..777_u32 {
        c.insert(i, &[i as u64]);
    }
    assert_eq!(c.tuple_count(), 777);
    let table = build(vec![c], &config);
    assert_eq!(table.num_tuples(), 777);
}

#[test]
fn build_small_partition_count() {
    let config = BuildConfig::with_partitions(STRIDE, 2);
    let mut c = LocalCollector::new(&config);
    for i in 0..500_u32 {
        c.insert(i, &[i as u64 * 3]);
    }
    let table = build(vec![c], &config);
    for i in 0..500_u32 {
        let mut found = false;
        for t in table.probe(i).1 {
            assert_eq!(t[1], i as u64 * 3);
            found = true;
        }
        assert!(found, "key {i} not found");
    }
}

#[test]
fn single_thread_build_scan() {
    // build (k, k * 10) for k in 0..100; each probe yields its payload
    let data: Vec<(u32, u64)> = (0..100).map(|k| (k, k as u64 * 10)).collect();
    let table = build_single(&data);
    for k in 0..100u32 {
        let (hit, rows) = table.probe(k);
        assert!(hit);
        assert_eq!(rows.len(), 1);
        assert_eq!(rows[0][1], k as u64 * 10);
    }
    assert!(table.probe(100).1.is_empty());
}

#[test]
fn bloom_isolation_false_positive_rate() {
    // build with 100,000 unique keys; bloom passes all of them, and only a
    // small fraction of the next 100,000 absent keys
    let data: Vec<(u32, u64)> = (0..100_000).map(|k| (k, k as u64)).collect();
    let table = build_single(&data);
    for k in 0..100_000u32 {
        assert!(table.bloom_check(k), "bloom rejected key {k}");
    }
    let mut false_positives = 0usize;
    for k in 100_000..200_000u32 {
        if table.bloom_check(k) {
            false_positives += 1;
        }
    }
    // design point is about 6%; allow slack but catch a broken filter
    assert!(false_positives < 12_000, "false positive count {false_positives}");
}

#[test]
fn wide_tuples_round_trip() {
    // stride 32: key plus three payload words
    let config = BuildConfig::new(32);
    let mut c = LocalCollector::new(&config);
    for i in 0..100u32 {
        c.insert(i, &[i as u64, i as u64 + 1, i as u64 + 2]);
    }
    let table = build(vec![c], &config);
    for i in 0..100u32 {
        let rows = table.probe(i).1;
        assert_eq!(rows.len(), 1);
        assert_eq!(rows[0], vec![i as u64, i as u64, i as u64 + 1, i as u64 + 2]);
    }
}

#[test]
fn empty_table_rejects_everything() {
    let table = UnchainedHashTable::empty(STRIDE);
    assert_eq!(table.num_tuples(), 0);
    for k in [0u32, 1, 42, u32::MAX] {
        assert!(!table.bloom_check(k));
        assert!(table.probe(k).1.is_empty());
    }
}

#[test]
fn duplicate_keys_scenario() {
    // [(10,1),(10,2),(20,3),(20,4),(20,5)]: probe(10) yields {1,2} and
    // probe(20) yields {3,4,5} as multisets
    let table = build_single(&[(10, 1), (10, 2), (20, 3), (20, 4), (20, 5)]);
    let mut ten: Vec<u64> = table.probe(10).1.iter().map(|t| t[1]).collect();
    ten.sort();
    assert_eq!(ten, vec![1, 2]);
    let mut twenty: Vec<u64> = table.probe(20).1.iter().map(|t| t[1]).collect();
    twenty.sort();
    assert_eq!(twenty, vec![3, 4, 5]);
    assert!(table.probe(99).1.is_empty());
}

#[test]
fn sizing_meets_load_factor() {
    // the directory always holds at least 1.125x the tuple count
    for n in [1usize, 7, 15, 16, 100, 911, 1000, 4096, 100_000] {
        let (size, _) = compute_table_params(n);
        assert!(8 * size >= 9 * n, "size {size} too small for {n} tuples");
        assert!(size.is_power_of_two());
    }
}
