//! Stake entries and their aggregation model.
//!
//! A stake entry attributes an amount of stake to a pool. The model of
//! aggregation is `stake_map`: the map from each pool identifier that
//! occurs in a list of entries to the exact sum of the amounts tagged
//! with it, computed over unbounded integers.

use vstd::prelude::*;

use crate::amount::{dec_val, is_dec};

verus! {

/// One observation of stake delegated to a pool, amount already numeric.
pub struct StakeEntry {
    pub pool_id: String,
    pub amount: u128,
}

impl View for StakeEntry {
    type V = (Seq<char>, u128);

    open spec fn view(&self) -> (Seq<char>, u128) {
        (self.pool_id@, self.amount)
    }
}

/// One observation as delivered by a data source: the amount is still a
/// decimal string.
pub struct RawStakeEntry {
    pub pool_id: String,
    pub amount: String,
}

/// The entries of a list, as pairs of pool identifier and amount.
pub open spec fn entry_views(s: Seq<StakeEntry>) -> Seq<(Seq<char>, u128)> {
    s.map_values(|e: StakeEntry| e@)
}

/// Whether some entry of `s` belongs to pool `p`.
pub open spec fn has_pool(s: Seq<(Seq<char>, u128)>, p: Seq<char>) -> bool {
    exists|i: int| 0 <= i < s.len() && (#[trigger] s[i]).0 == p
}

/// What entry `q` contributes to pool `p`.
pub open spec fn contribution(q: (Seq<char>, u128), p: Seq<char>) -> int {
    if q.0 == p {
        q.1 as int
    } else {
        0
    }
}

/// The exact sum of the amounts of `s` tagged with pool `p`,
/// over unbounded integers.
pub open spec fn pool_sum(s: Seq<(Seq<char>, u128)>, p: Seq<char>) -> int
    decreases s.len(),
{
    if s.len() == 0 {
        0
    } else {
        pool_sum(s.drop_last(), p) + contribution(s.last(), p)
    }
}

/// The aggregated result for a list of entries: every pool that occurs,
/// mapped to the exact sum of its amounts.
pub open spec fn stake_map(s: Seq<(Seq<char>, u128)>) -> Map<Seq<char>, int> {
    Map::new(|p: Seq<char>| has_pool(s, p), |p: Seq<char>| pool_sum(s, p))
}

/// Per-pool sums are nonnegative.
pub proof fn lemma_pool_sum_nonneg(s: Seq<(Seq<char>, u128)>, p: Seq<char>)
    ensures
        pool_sum(s, p) >= 0,
    decreases s.len(),
{
    if s.len() > 0 {
        lemma_pool_sum_nonneg(s.drop_last(), p);
    }
}

/// Per-pool sums distribute over concatenation.
pub proof fn lemma_pool_sum_concat(s1: Seq<(Seq<char>, u128)>, s2: Seq<(Seq<char>, u128)>, p: Seq<char>)
    ensures
        pool_sum(s1 + s2, p) == pool_sum(s1, p) + pool_sum(s2, p),
    decreases s2.len(),
{
    if s2.len() == 0 {
        assert(s1 + s2 =~= s1);
    } else {
        lemma_pool_sum_concat(s1, s2.drop_last(), p);
        assert((s1 + s2).drop_last() =~= s1 + s2.drop_last());
        assert((s1 + s2).last() == s2.last());
    }
}

/// A prefix never exceeds the whole.
pub proof fn lemma_pool_sum_prefix_le(s: Seq<(Seq<char>, u128)>, i: int, p: Seq<char>)
    requires
        0 <= i <= s.len(),
    ensures
        pool_sum(s.take(i), p) <= pool_sum(s, p),
{
    assert(s =~= s.take(i) + s.skip(i));
    lemma_pool_sum_concat(s.take(i), s.skip(i), p);
    lemma_pool_sum_nonneg(s.skip(i), p);
}

/// Removing one entry removes exactly its contribution.
pub proof fn lemma_pool_sum_remove(s: Seq<(Seq<char>, u128)>, i: int, p: Seq<char>)
    requires
        0 <= i < s.len(),
    ensures
        pool_sum(s.remove(i), p) == pool_sum(s, p) - contribution(s[i], p),
{
    assert(s =~= s.take(i) + seq![s[i]] + s.skip(i + 1));
    assert(s.remove(i) =~= s.take(i) + s.skip(i + 1));
    lemma_pool_sum_concat(s.take(i) + seq![s[i]], s.skip(i + 1), p);
    lemma_pool_sum_concat(s.take(i), seq![s[i]], p);
    lemma_pool_sum_concat(s.take(i), s.skip(i + 1), p);
    assert(pool_sum(seq![s[i]], p) == contribution(s[i], p)) by {
        assert(seq![s[i]].len() == 1);
        assert(seq![s[i]].last() == s[i]);
        assert(seq![s[i]].drop_last() =~= Seq::<(Seq<char>, u128)>::empty());
        assert(pool_sum(Seq::<(Seq<char>, u128)>::empty(), p) == 0);
    }
}

/// Reordering a list of entries does not change any pool's sum.
pub proof fn lemma_pool_sum_permutation(
    s1: Seq<(Seq<char>, u128)>,
    s2: Seq<(Seq<char>, u128)>,
    p: Seq<char>,
)
    requires
        s1.to_multiset() == s2.to_multiset(),
    ensures
        pool_sum(s1, p) == pool_sum(s2, p),
    decreases s1.len(),
{
    broadcast use vstd::seq_lib::group_to_multiset_ensures;

    if s1.len() == 0 {
        assert(s1.to_multiset().len() == 0);
        assert(s2.to_multiset().len() == s2.len());
    } else {
        let x = s1.last();
        let rest = s1.drop_last();
        assert(s1 =~= rest.push(x));
        assert(s1.contains(x));
        assert(s1.to_multiset().count(x) > 0);
        assert(s2.to_multiset().count(x) > 0);
        assert(s2.contains(x));
        let j = choose|j: int| 0 <= j < s2.len() && s2[j] == x;
        assert(rest.to_multiset() =~= s2.remove(j).to_multiset()) by {
            assert(rest.push(x).to_multiset() =~= rest.to_multiset().insert(x));
            assert(s2.remove(j).to_multiset() =~= s2.to_multiset().remove(x));
        }
        lemma_pool_sum_permutation(rest, s2.remove(j), p);
        lemma_pool_sum_remove(s2, j, p);
    }
}

/// Reordering a list of entries does not change which pools occur.
pub proof fn lemma_has_pool_permutation(
    s1: Seq<(Seq<char>, u128)>,
    s2: Seq<(Seq<char>, u128)>,
    p: Seq<char>,
)
    requires
        s1.to_multiset() == s2.to_multiset(),
    ensures
        has_pool(s1, p) == has_pool(s2, p),
{
    broadcast use vstd::seq_lib::group_to_multiset_ensures;

    if has_pool(s1, p) {
        let i = choose|i: int| 0 <= i < s1.len() && s1[i].0 == p;
        assert(s1.contains(s1[i]));
        assert(s1.to_multiset().count(s1[i]) > 0);
        assert(s2.to_multiset().count(s1[i]) > 0);
        assert(s2.contains(s1[i]));
    }
    if has_pool(s2, p) {
        let i = choose|i: int| 0 <= i < s2.len() && s2[i].0 == p;
        assert(s2.contains(s2[i]));
        assert(s2.to_multiset().count(s2[i]) > 0);
        assert(s1.to_multiset().count(s2[i]) > 0);
        assert(s1.contains(s2[i]));
    }
}

/// Aggregation is insensitive to the order of its input: permuted entry
/// lists yield the identical aggregated map.
pub proof fn lemma_stake_map_permutation(s1: Seq<(Seq<char>, u128)>, s2: Seq<(Seq<char>, u128)>)
    requires
        s1.to_multiset() == s2.to_multiset(),
    ensures
        stake_map(s1) == stake_map(s2),
{
    assert forall|p: Seq<char>| has_pool(s1, p) == has_pool(s2, p) by {
        lemma_has_pool_permutation(s1, s2, p);
    }
    assert forall|p: Seq<char>| pool_sum(s1, p) == pool_sum(s2, p) by {
        lemma_pool_sum_permutation(s1, s2, p);
    }
    assert(stake_map(s1) =~= stake_map(s2));
}

/// Aggregating no entries yields the empty map.
pub proof fn lemma_stake_map_empty()
    ensures
        stake_map(Seq::<(Seq<char>, u128)>::empty()) == Map::<Seq<char>, int>::empty(),
{
    assert(stake_map(Seq::<(Seq<char>, u128)>::empty()) =~= Map::<Seq<char>, int>::empty());
}

/// Whether a raw amount string denotes a `u128`.
pub open spec fn ok_amount(a: Seq<char>) -> bool {
    is_dec(a) && dec_val(a) <= u128::MAX
}

/// Whether every amount in a raw list denotes a `u128`.
pub open spec fn all_amounts_ok(raw: Seq<RawStakeEntry>) -> bool {
    forall|i: int| 0 <= i < raw.len() ==> ok_amount((#[trigger] raw[i]).amount@)
}

/// The numeric entries denoted by a raw list whose amounts all parse.
pub open spec fn parsed_views(raw: Seq<RawStakeEntry>) -> Seq<(Seq<char>, u128)> {
    Seq::new(raw.len(), |i: int| (raw[i].pool_id@, dec_val(raw[i].amount@) as u128))
}

/// Parse the amounts of a raw entry list.
///
/// Succeeds exactly when every amount is a decimal numeral that fits in
/// 128 bits; a single bad amount fails the whole list, so that a corrupt
/// record aborts the run instead of being skipped.
pub fn parse_entries(raw: &Vec<RawStakeEntry>) -> (r: Option<Vec<StakeEntry>>)
    ensures
        r is Some <==> all_amounts_ok(raw@),
        r is Some ==> entry_views(r->0@) == parsed_views(raw@),
{
    let n = raw.len();
    let mut out: Vec<StakeEntry> = Vec::new();
    let mut i: usize = 0;
    while i < n
        invariant
            n == raw@.len(),
            0 <= i <= n,
            out@.len() == i,
            forall|j: int| 0 <= j < i ==> ok_amount((#[trigger] raw@[j]).amount@),
            forall|j: int|
                0 <= j < i ==> (#[trigger] out@[j])@ == (raw@[j].pool_id@, dec_val(
                    raw@[j].amount@,
                ) as u128),
        decreases n - i,
    {
        let a = crate::amount::parse_u128(raw[i].amount.as_str());
        match a {
            Some(v) => {
                out.push(StakeEntry { pool_id: raw[i].pool_id.clone(), amount: v });
            },
            None => {
                assert(!ok_amount(raw@[i as int].amount@));
                return None;
            },
        }
        i = i + 1;
    }
    proof {
        assert(entry_views(out@) =~= parsed_views(raw@));
    }
    Some(out)
}


/// Permuted entry lists have permuted views.
pub proof fn lemma_entry_views_permutation(e1: Seq<StakeEntry>, e2: Seq<StakeEntry>)
    requires
        e1.to_multiset() == e2.to_multiset(),
    ensures
        entry_views(e1).to_multiset() == entry_views(e2).to_multiset(),
    decreases e1.len(),
{
    broadcast use vstd::seq_lib::group_to_multiset_ensures;

    if e1.len() == 0 {
        assert(e1.to_multiset().len() == 0);
        assert(e2.to_multiset().len() == e2.len());
        assert(entry_views(e1) =~= entry_views(e2));
    } else {
        let x = e1.last();
        let rest = e1.drop_last();
        assert(e1 =~= rest.push(x));
        assert(e1.contains(x));
        assert(e1.to_multiset().count(x) > 0);
        assert(e2.to_multiset().count(x) > 0);
        assert(e2.contains(x));
        let j = choose|j: int| 0 <= j < e2.len() && e2[j] == x;
        assert(rest.to_multiset() =~= e2.remove(j).to_multiset()) by {
            assert(rest.push(x).to_multiset() =~= rest.to_multiset().insert(x));
            assert(e2.remove(j).to_multiset() =~= e2.to_multiset().remove(x));
        }
        lemma_entry_views_permutation(rest, e2.remove(j));
        let v1 = entry_views(e1);
        let v2 = entry_views(e2);
        assert(entry_views(rest) =~= v1.drop_last());
        assert(v1 =~= v1.drop_last().push(x@));
        assert(v1.to_multiset() =~= entry_views(rest).to_multiset().insert(x@)) by {
            assert(v1.drop_last().push(x@).to_multiset() =~= v1.drop_last().to_multiset().insert(
                x@,
            ));
        }
        assert(entry_views(e2.remove(j)) =~= v2.remove(j));
        assert(v2.remove(j).to_multiset() =~= v2.to_multiset().remove(v2[j]));
        assert(v2[j] == x@);
        assert(v2.contains(v2[j]));
        assert(v2.to_multiset().count(v2[j]) > 0);
        assert(v2.to_multiset().remove(x@).insert(x@) =~= v2.to_multiset());
        assert(v1.to_multiset() =~= v2.to_multiset());
    }
}

} // verus!

