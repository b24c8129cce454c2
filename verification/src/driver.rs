//! The per-epoch pipeline and the epoch-range plan.
//!
//! A data source hands over raw entries for one epoch; this module turns
//! them into the aggregated map, names the file the result belongs in,
//! and enumerates the epochs of an inclusive range. Fetching and file
//! writing stay with the caller.

use vstd::prelude::*;

use crate::amount::{int_dec, i32_to_dec};
use crate::entries::{all_amounts_ok, parse_entries, parsed_views, pool_sum, stake_map, RawStakeEntry};
use crate::pool_map::{try_aggregate, PoolStakeMap};

verus! {

/// Why an epoch's processing was aborted.
#[derive(Clone, Copy, PartialEq, Eq, Structural, Debug)]
pub enum StakeError {
    /// An amount string was not a decimal numeral that fits 128 bits.
    /// A corrupt amount cannot be taken for zero, so the run stops.
    InvalidAmount,
    /// A pool's exact total exceeds the amount type.
    TotalOverflow,
}

/// One epoch's computation: parse every raw amount, then total the
/// amounts per pool.
///
/// The first bad amount, or an overflowing total, aborts the epoch with
/// the matching error before anything is produced; otherwise the result
/// is exactly the aggregated map of the raw entries.
pub fn epoch_pool_stakes(raw: &Vec<RawStakeEntry>) -> (r: Result<PoolStakeMap, StakeError>)
    ensures
        !all_amounts_ok(raw@) ==> r == Err::<PoolStakeMap, StakeError>(StakeError::InvalidAmount),
        all_amounts_ok(raw@) && !(forall|p: Seq<char>|
            pool_sum(parsed_views(raw@), p) <= u128::MAX) ==> r == Err::<
            PoolStakeMap,
            StakeError,
        >(StakeError::TotalOverflow),
        all_amounts_ok(raw@) && (forall|p: Seq<char>|
            pool_sum(parsed_views(raw@), p) <= u128::MAX) ==> r is Ok,
        r matches Ok(m) ==> m.wf() && stake_map(m@) == stake_map(parsed_views(raw@)),
{
    match parse_entries(raw) {
        None => Err(StakeError::InvalidAmount),
        Some(entries) => match try_aggregate(&entries) {
            None => Err(StakeError::TotalOverflow),
            Some(m) => Ok(m),
        },
    }
}

/// The directory the per-epoch files go in.
pub open spec fn csv_dir() -> Seq<char> {
    seq!['c', 's', 'v', '/']
}

/// The path of one epoch's file: `csv/{prefix}_{epoch}_stake.csv`.
pub open spec fn csv_path_spec(prefix: Seq<char>, epoch: int) -> Seq<char> {
    csv_dir() + prefix + seq!['_'] + int_dec(epoch) + seq![
        '_',
        's',
        't',
        'a',
        'k',
        'e',
        '.',
        'c',
        's',
        'v',
    ]
}

/// Name the file one epoch's result is written to.
pub fn csv_path(prefix: &str, epoch: i32) -> (r: String)
    ensures
        r@ == csv_path_spec(prefix@, epoch as int),
{
    proof {
        reveal_strlit("csv/");
        reveal_strlit("_");
        reveal_strlit("_stake.csv");
    }
    let mut out = String::from_str("csv/");
    out.append(prefix);
    out.append("_");
    let e = i32_to_dec(epoch);
    out.append(e.as_str());
    out.append("_stake.csv");
    proof {
        assert("csv/"@ =~= csv_dir());
        assert("_"@ =~= seq!['_']);
        assert("_stake.csv"@ =~= seq!['_', 's', 't', 'a', 'k', 'e', '.', 'c', 's', 'v']);
        assert(out@ =~= csv_path_spec(prefix@, epoch as int));
    }
    out
}

/// Inclusive epoch range, ascending. An inverted range (`start > end`)
/// yields no epochs at all rather than an error.
pub fn epoch_range(start: i32, end: i32) -> (r: Vec<i32>)
    ensures
        start > end ==> r@.len() == 0,
        start <= end ==> r@.len() == end - start + 1,
        forall|k: int| 0 <= k < r@.len() ==> r@[k] == start + k,
{
    let mut r: Vec<i32> = Vec::new();
    let mut e: i64 = start as i64;
    while e <= end as i64
        invariant
            start <= e,
            e <= end as i64 + 1 || e == start,
            r@.len() == e - start,
            forall|k: int| 0 <= k < r@.len() ==> r@[k] == start + k,
        decreases end as int + 1 - e,
    {
        r.push(e as i32);
        e = e + 1;
    }
    r
}

} // verus!
