use epoch_stake::csv::csv_content;
use epoch_stake::driver::{csv_path, epoch_pool_stakes, epoch_range, StakeError};
use epoch_stake::entries::RawStakeEntry;

fn raw(pool: &str, amount: &str) -> RawStakeEntry {
    RawStakeEntry { pool_id: pool.to_string(), amount: amount.to_string() }
}

#[test]
fn epoch_range_is_inclusive_and_ascending() {
    assert_eq!(epoch_range(3, 5), vec![3, 4, 5]);
    assert_eq!(epoch_range(212, 212), vec![212]);
    assert_eq!(epoch_range(-2, 1), vec![-2, -1, 0, 1]);
}

#[test]
fn inverted_epoch_range_is_empty() {
    assert_eq!(epoch_range(5, 3), Vec::<i32>::new());
    assert_eq!(epoch_range(0, -1), Vec::<i32>::new());
}

#[test]
fn csv_path_names() {
    assert_eq!(csv_path("blockfrost", 212), "csv/blockfrost_212_stake.csv");
    assert_eq!(csv_path("dbsync", 0), "csv/dbsync_0_stake.csv");
    assert_eq!(csv_path("dbsync", -3), "csv/dbsync_-3_stake.csv");
}

#[test]
fn epoch_pool_stakes_parses_and_aggregates() {
    let entries = vec![raw("poolA", "100"), raw("poolB", "50"), raw("poolA", "25")];
    let m = epoch_pool_stakes(&entries).unwrap();
    assert_eq!(m.get(&"poolA".to_string()), Some(125));
    assert_eq!(m.get(&"poolB".to_string()), Some(50));
    assert_eq!(csv_content(&m), "pool_id,stake\npoolA,125\npoolB,50\n");
}

#[test]
fn bad_amount_aborts_the_epoch() {
    let entries = vec![raw("poolA", "100"), raw("poolB", "abc")];
    let r = epoch_pool_stakes(&entries);
    assert_eq!(r.err(), Some(StakeError::InvalidAmount));
}

#[test]
fn overflowing_total_aborts_the_epoch() {
    let entries = vec![
        raw("poolA", "340282366920938463463374607431768211455"),
        raw("poolA", "1"),
    ];
    let r = epoch_pool_stakes(&entries);
    assert_eq!(r.err(), Some(StakeError::TotalOverflow));
}

#[test]
fn per_amount_overflow_is_an_invalid_amount() {
    let entries = vec![raw("poolA", "340282366920938463463374607431768211456")];
    let r = epoch_pool_stakes(&entries);
    assert_eq!(r.err(), Some(StakeError::InvalidAmount));
}
