use epoch_stake::csv::csv_content;
use epoch_stake::entries::StakeEntry;
use epoch_stake::pool_map::{aggregate, try_aggregate};

fn entry(pool: &str, amount: u128) -> StakeEntry {
    StakeEntry { pool_id: pool.to_string(), amount }
}

#[test]
fn aggregate_sums_duplicate_pools() {
    let entries = vec![entry("poolA", 100), entry("poolB", 50), entry("poolA", 25)];
    let m = aggregate(&entries);
    assert_eq!(m.len(), 2);
    assert_eq!(m.get(&"poolA".to_string()), Some(125));
    assert_eq!(m.get(&"poolB".to_string()), Some(50));
}

#[test]
fn aggregate_empty_yields_empty_map() {
    let entries: Vec<StakeEntry> = Vec::new();
    let m = aggregate(&entries);
    assert_eq!(m.len(), 0);
}

#[test]
fn aggregate_is_order_insensitive() {
    let a = vec![
        entry("poolA", 100),
        entry("poolB", 50),
        entry("poolA", 25),
        entry("poolC", 7),
    ];
    let b = vec![
        entry("poolC", 7),
        entry("poolA", 25),
        entry("poolB", 50),
        entry("poolA", 100),
    ];
    let ma = aggregate(&a);
    let mb = aggregate(&b);
    assert_eq!(csv_content(&ma), csv_content(&mb));
}

#[test]
fn aggregate_keeps_full_128_bit_precision() {
    let big: u128 = 170141183460469231731687303715884105727; // 2^127 - 1
    let entries = vec![entry("poolA", big), entry("poolA", 1), entry("poolB", 3)];
    let m = aggregate(&entries);
    assert_eq!(m.get(&"poolA".to_string()), Some(big + 1));
    assert_eq!(m.get(&"poolB".to_string()), Some(3));
}

#[test]
fn aggregate_keeps_zero_amount_pools() {
    let entries = vec![entry("poolZ", 0)];
    let m = aggregate(&entries);
    assert_eq!(m.len(), 1);
    assert_eq!(m.get(&"poolZ".to_string()), Some(0));
}

#[test]
fn try_aggregate_rejects_overflowing_total() {
    let entries = vec![entry("poolA", u128::MAX), entry("poolA", 1)];
    assert!(try_aggregate(&entries).is_none());
}

#[test]
fn try_aggregate_allows_maximum_total() {
    let entries = vec![entry("poolA", u128::MAX), entry("poolB", u128::MAX)];
    let m = try_aggregate(&entries).unwrap();
    assert_eq!(m.get(&"poolA".to_string()), Some(u128::MAX));
}
