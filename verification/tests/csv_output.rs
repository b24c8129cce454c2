use std::collections::HashMap;

use epoch_stake::csv::csv_content;
use epoch_stake::entries::StakeEntry;
use epoch_stake::pool_map::aggregate;

fn entry(pool: &str, amount: u128) -> StakeEntry {
    StakeEntry { pool_id: pool.to_string(), amount }
}

#[test]
fn csv_scenario_two_pools() {
    let entries = vec![entry("poolA", 100), entry("poolB", 50), entry("poolA", 25)];
    let m = aggregate(&entries);
    assert_eq!(csv_content(&m), "pool_id,stake\npoolA,125\npoolB,50\n");
}

#[test]
fn csv_empty_is_header_only() {
    let entries: Vec<StakeEntry> = Vec::new();
    let m = aggregate(&entries);
    assert_eq!(csv_content(&m), "pool_id,stake\n");
}

#[test]
fn csv_rows_sorted_by_pool_id_bytes() {
    let entries = vec![entry("zeta", 1), entry("Alpha", 2), entry("alpha", 3), entry("alp", 4)];
    let m = aggregate(&entries);
    // Byte order: uppercase before lowercase, prefix before extension.
    assert_eq!(csv_content(&m), "pool_id,stake\nAlpha,2\nalp,4\nalpha,3\nzeta,1\n");
}

#[test]
fn csv_deterministic_across_insertion_orders() {
    let a = vec![entry("p3", 3), entry("p1", 1), entry("p2", 2)];
    let b = vec![entry("p2", 2), entry("p3", 3), entry("p1", 1)];
    assert_eq!(csv_content(&aggregate(&a)), csv_content(&aggregate(&b)));
}

#[test]
fn csv_round_trip_recovers_the_map() {
    let entries = vec![
        entry("poolA", 100),
        entry("poolB", 50),
        entry("poolA", 25),
        entry("poolC", 0),
    ];
    let m = aggregate(&entries);
    let text = csv_content(&m);

    let mut recovered: HashMap<String, u128> = HashMap::new();
    for line in text.lines().skip(1) {
        let (pool, amount) = line.split_once(',').unwrap();
        let v: u128 = amount.parse().unwrap();
        *recovered.entry(pool.to_string()).or_insert(0) += v;
    }
    assert_eq!(recovered.len(), 3);
    assert_eq!(recovered["poolA"], 125);
    assert_eq!(recovered["poolB"], 50);
    assert_eq!(recovered["poolC"], 0);
}
