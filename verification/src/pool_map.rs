//! The aggregated result for one epoch.
//!
//! `PoolStakeMap` holds one total per pool, with the pairs kept strictly
//! sorted by pool identifier. The sorted form is canonical: two
//! well-formed maps with the same aggregated content are equal pair for
//! pair, which is what makes the rendered CSV reproducible.

use vstd::prelude::*;

use crate::entries::{
    contribution, entry_views, has_pool, pool_sum, stake_map, StakeEntry,
    lemma_entry_views_permutation, lemma_pool_sum_concat, lemma_pool_sum_prefix_le,
    lemma_stake_map_permutation,
};
use crate::lex::{lex_lt, lemma_lex_asym, lemma_lex_irrefl, lemma_lex_total, lemma_lex_trans, str_lt};

verus! {

/// Strictly ascending pool identifiers, hence no duplicates.
pub open spec fn strictly_sorted(s: Seq<(Seq<char>, u128)>) -> bool {
    forall|i: int, j: int|
        0 <= i < j < s.len() ==> #[trigger] lex_lt(s[i].0, s[j].0)
}

/// Strict sortedness forbids equal keys.
pub proof fn lemma_sorted_distinct(s: Seq<(Seq<char>, u128)>)
    requires
        strictly_sorted(s),
    ensures
        forall|i: int, j: int|
            0 <= i < s.len() && 0 <= j < s.len() && i != j ==> (#[trigger] s[i]).0 != (
            #[trigger] s[j]).0,
{
    assert forall|i: int, j: int|
        0 <= i < s.len() && 0 <= j < s.len() && i != j implies (#[trigger] s[i]).0 != (
    #[trigger] s[j]).0 by {
        if i < j {
            assert(lex_lt(s[i].0, s[j].0));
            lemma_lex_irrefl(s[i].0);
        } else {
            assert(lex_lt(s[j].0, s[i].0));
            lemma_lex_irrefl(s[i].0);
        }
    }
}

/// A pool that occurs nowhere sums to zero.
pub proof fn lemma_pool_sum_absent(s: Seq<(Seq<char>, u128)>, p: Seq<char>)
    requires
        !has_pool(s, p),
    ensures
        pool_sum(s, p) == 0,
    decreases s.len(),
{
    if s.len() > 0 {
        assert(!has_pool(s.drop_last(), p)) by {
            if has_pool(s.drop_last(), p) {
                let i = choose|i: int| 0 <= i < s.drop_last().len() && (#[trigger] s.drop_last()[i]).0 == p;
                assert(s[i].0 == p);
            }
        }
        lemma_pool_sum_absent(s.drop_last(), p);
        assert(s.last().0 != p) by {
            assert(s[s.len() - 1] == s.last());
        }
    }
}

/// With distinct keys, the sum for a key that occurs is its sole amount.
pub proof fn lemma_pool_sum_at(s: Seq<(Seq<char>, u128)>, i: int)
    requires
        0 <= i < s.len(),
        forall|a: int, b: int|
            0 <= a < s.len() && 0 <= b < s.len() && a != b ==> (#[trigger] s[a]).0 != (
            #[trigger] s[b]).0,
    ensures
        pool_sum(s, s[i].0) == s[i].1,
{
    let p = s[i].0;
    assert(s =~= s.take(i) + seq![s[i]] + s.skip(i + 1));
    lemma_pool_sum_concat(s.take(i) + seq![s[i]], s.skip(i + 1), p);
    lemma_pool_sum_concat(s.take(i), seq![s[i]], p);
    assert(pool_sum(seq![s[i]], p) == contribution(s[i], p)) by {
        assert(seq![s[i]].len() == 1);
        assert(seq![s[i]].last() == s[i]);
        assert(seq![s[i]].drop_last() =~= Seq::<(Seq<char>, u128)>::empty());
        assert(pool_sum(Seq::<(Seq<char>, u128)>::empty(), p) == 0);
    }
    assert(!has_pool(s.take(i), p)) by {
        if has_pool(s.take(i), p) {
            let a = choose|a: int| 0 <= a < s.take(i).len() && (#[trigger] s.take(i)[a]).0 == p;
            assert(s[a].0 == p && a != i);
        }
    }
    assert(!has_pool(s.skip(i + 1), p)) by {
        if has_pool(s.skip(i + 1), p) {
            let a = choose|a: int| 0 <= a < s.skip(i + 1).len() && (#[trigger] s.skip(i + 1)[a]).0 == p;
            assert(s[a + i + 1].0 == p && a + i + 1 != i);
        }
    }
    lemma_pool_sum_absent(s.take(i), p);
    lemma_pool_sum_absent(s.skip(i + 1), p);
}

/// With distinct keys, every pool's sum fits the amount type.
pub proof fn lemma_pool_sum_bounded(s: Seq<(Seq<char>, u128)>, p: Seq<char>)
    requires
        forall|a: int, b: int|
            0 <= a < s.len() && 0 <= b < s.len() && a != b ==> (#[trigger] s[a]).0 != (
            #[trigger] s[b]).0,
    ensures
        pool_sum(s, p) <= u128::MAX,
{
    if has_pool(s, p) {
        let i = choose|i: int| 0 <= i < s.len() && (#[trigger] s[i]).0 == p;
        lemma_pool_sum_at(s, i);
    } else {
        lemma_pool_sum_absent(s, p);
    }
}

/// The aggregated totals for one epoch: one pair per pool, strictly
/// sorted ascending by pool identifier.
pub struct PoolStakeMap {
    pairs: Vec<(String, u128)>,
}

impl View for PoolStakeMap {
    type V = Seq<(Seq<char>, u128)>;

    closed spec fn view(&self) -> Seq<(Seq<char>, u128)> {
        self.pairs@.map_values(|q: (String, u128)| (q.0@, q.1))
    }
}

impl PoolStakeMap {
    /// Well-formed: pairs strictly sorted by pool identifier.
    pub open spec fn wf(&self) -> bool {
        strictly_sorted(self@)
    }

    /// The empty result.
    pub fn new() -> (m: Self)
        ensures
            m@ == Seq::<(Seq<char>, u128)>::empty(),
            m.wf(),
    {
        let m = PoolStakeMap { pairs: Vec::new() };
        proof {
            assert(m@ =~= Seq::<(Seq<char>, u128)>::empty());
        }
        m
    }

    /// How many pools have a total.
    pub fn len(&self) -> (n: usize)
        ensures
            n == self@.len(),
    {
        self.pairs.len()
    }

    /// The pool identifier of the pair at `i`.
    pub fn key_at(&self, i: usize) -> (k: &String)
        requires
            i < self@.len(),
        ensures
            k@ == self@[i as int].0,
    {
        &self.pairs[i].0
    }

    /// The total of the pair at `i`.
    pub fn amount_at(&self, i: usize) -> (a: u128)
        requires
            i < self@.len(),
        ensures
            a == self@[i as int].1,
    {
        self.pairs[i].1
    }

    /// Where `key` is or would be: the index of its pair if present,
    /// otherwise its insertion point.
    fn locate(&self, key: &String) -> (r: (usize, bool))
        requires
            self.wf(),
        ensures
            r.0 <= self@.len(),
            r.1 ==> r.0 < self@.len() && self@[r.0 as int].0 == key@,
            !r.1 ==> forall|j: int| 0 <= j < r.0 ==> lex_lt((#[trigger] self@[j]).0, key@),
            !r.1 ==> forall|j: int|
                r.0 <= j < self@.len() ==> lex_lt(key@, (#[trigger] self@[j]).0),
    {
        let n = self.pairs.len();
        let mut j: usize = 0;
        while j < n
            invariant
                n == self@.len(),
                0 <= j <= n,
                self.wf(),
                forall|jj: int| 0 <= jj < j ==> lex_lt((#[trigger] self@[jj]).0, key@),
            decreases n - j,
        {
            if self.pairs[j].0 == *key {
                return (j, true);
            }
            if str_lt(key.as_str(), self.pairs[j].0.as_str()) {
                proof {
                    assert forall|jj: int| j <= jj < self@.len() implies lex_lt(
                        key@,
                        (#[trigger] self@[jj]).0,
                    ) by {
                        if jj > j {
                            assert(lex_lt(self@[j as int].0, self@[jj].0));
                            lemma_lex_trans(key@, self@[j as int].0, self@[jj].0);
                        }
                    }
                }
                return (j, false);
            }
            proof {
                if !lex_lt(self@[j as int].0, key@) {
                    lemma_lex_total(self@[j as int].0, key@);
                }
            }
            j = j + 1;
        }
        (n, false)
    }

    /// Look up the total for a pool.
    pub fn get(&self, key: &String) -> (r: Option<u128>)
        requires
            self.wf(),
        ensures
            r is Some <==> has_pool(self@, key@),
            r is Some ==> r->0 == pool_sum(self@, key@),
            r is None ==> pool_sum(self@, key@) == 0,
    {
        let (j, found) = self.locate(key);
        proof {
            lemma_sorted_distinct(self@);
        }
        if found {
            proof {
                lemma_pool_sum_at(self@, j as int);
            }
            Some(self.pairs[j].1)
        } else {
            proof {
                assert(!has_pool(self@, key@)) by {
                    if has_pool(self@, key@) {
                        let i = choose|i: int| 0 <= i < self@.len() && (#[trigger] self@[i]).0 == key@;
                        assert(lex_lt(self@[i].0, key@) || lex_lt(key@, self@[i].0));
                        lemma_lex_irrefl(key@);
                    }
                }
                lemma_pool_sum_absent(self@, key@);
            }
            None
        }
    }

    /// Credit `amount` to `pool_id`, inserting the pool if it is new.
    /// Fails, leaving the map unchanged, only when the pool's total
    /// would exceed the amount type.
    fn add_entry(&mut self, pool_id: &String, amount: u128) -> (ok: bool)
        requires
            old(self).wf(),
        ensures
            final(self).wf(),
            ok <==> pool_sum(old(self)@, pool_id@) + amount <= u128::MAX,
            !ok ==> final(self)@ == old(self)@,
            ok ==> forall|p: Seq<char>|
                has_pool(final(self)@, p) == (has_pool(old(self)@, p) || p == pool_id@),
            ok ==> forall|p: Seq<char>|
                pool_sum(final(self)@, p) == pool_sum(old(self)@, p) + contribution(
                    (pool_id@, amount),
                    p,
                ),
    {
        let ghost s0 = self@;
        let (j, found) = self.locate(pool_id);
        proof {
            lemma_sorted_distinct(self@);
        }
        if found {
            let cur = self.pairs[j].1;
            proof {
                lemma_pool_sum_at(s0, j as int);
            }
            if cur > u128::MAX - amount {
                return false;
            }
            let pr = self.pairs.remove(j);
            self.pairs.insert(j, (pr.0, cur + amount));
            proof {
                let s1 = self@;
                assert(s1 =~= s0.update(j as int, (pool_id@, (cur + amount) as u128)));
                lemma_update_effect(s0, j as int, (cur + amount) as u128, pool_id@);
                assert((#[trigger] s0[j as int]).0 == pool_id@);
                assert(has_pool(s0, pool_id@));
            }
            true
        } else {
            proof {
                assert(!has_pool(s0, pool_id@)) by {
                    if has_pool(s0, pool_id@) {
                        let i = choose|i: int| 0 <= i < s0.len() && (#[trigger] s0[i]).0 == pool_id@;
                        assert(lex_lt(s0[i].0, pool_id@) || lex_lt(pool_id@, s0[i].0));
                        lemma_lex_irrefl(pool_id@);
                    }
                }
                lemma_pool_sum_absent(s0, pool_id@);
            }
            self.pairs.insert(j, (pool_id.clone(), amount));
            proof {
                let s1 = self@;
                assert(s1 =~= s0.insert(j as int, (pool_id@, amount)));
                lemma_insert_effect(s0, j as int, amount, pool_id@);
            }
            true
        }
    }
}

/// Replacing the amount at `j` by a new total shifts that pool's sum and
/// nothing else; the keys, and with them sortedness, stay as they were.
proof fn lemma_update_effect(s: Seq<(Seq<char>, u128)>, j: int, v: u128, key: Seq<char>)
    requires
        0 <= j < s.len(),
        s[j].0 == key,
        strictly_sorted(s),
    ensures
        strictly_sorted(s.update(j, (key, v))),
        forall|p: Seq<char>| has_pool(s.update(j, (key, v)), p) == has_pool(s, p),
        forall|p: Seq<char>|
            pool_sum(s.update(j, (key, v)), p) == pool_sum(s, p) + contribution((key, v), p)
                - contribution(s[j], p),
{
    let t = s.update(j, (key, v));
    assert(t.len() == s.len());
    assert forall|i: int| 0 <= i < s.len() implies (#[trigger] t[i]).0 == s[i].0 by {}
    assert forall|a: int, b: int| 0 <= a < b < t.len() implies #[trigger] lex_lt(
        t[a].0,
        t[b].0,
    ) by {
        assert(lex_lt(s[a].0, s[b].0));
    }
    assert forall|p: Seq<char>| has_pool(t, p) == has_pool(s, p) by {
        if has_pool(t, p) {
            let i = choose|i: int| 0 <= i < t.len() && (#[trigger] t[i]).0 == p;
            assert(s[i].0 == p);
        }
        if has_pool(s, p) {
            let i = choose|i: int| 0 <= i < s.len() && (#[trigger] s[i]).0 == p;
            assert(t[i].0 == p);
        }
    }
    assert forall|p: Seq<char>|
        pool_sum(t, p) == pool_sum(s, p) + contribution((key, v), p) - contribution(s[j], p) by {
        assert(s =~= s.take(j) + seq![s[j]] + s.skip(j + 1));
        assert(t =~= s.take(j) + seq![(key, v)] + s.skip(j + 1));
        lemma_pool_sum_concat(s.take(j) + seq![s[j]], s.skip(j + 1), p);
        lemma_pool_sum_concat(s.take(j), seq![s[j]], p);
        lemma_pool_sum_concat(s.take(j) + seq![(key, v)], s.skip(j + 1), p);
        lemma_pool_sum_concat(s.take(j), seq![(key, v)], p);
        lemma_singleton_sum(s[j], p);
        lemma_singleton_sum((key, v), p);
    }
}

/// Inserting a fresh pair at its sorted position adds exactly its
/// contribution and keeps the pairs sorted.
proof fn lemma_insert_effect(s: Seq<(Seq<char>, u128)>, j: int, v: u128, key: Seq<char>)
    requires
        0 <= j <= s.len(),
        strictly_sorted(s),
        forall|i: int| 0 <= i < j ==> lex_lt((#[trigger] s[i]).0, key),
        forall|i: int| j <= i < s.len() ==> lex_lt(key, (#[trigger] s[i]).0),
    ensures
        strictly_sorted(s.insert(j, (key, v))),
        forall|p: Seq<char>|
            has_pool(s.insert(j, (key, v)), p) == (has_pool(s, p) || p == key),
        forall|p: Seq<char>|
            pool_sum(s.insert(j, (key, v)), p) == pool_sum(s, p) + contribution((key, v), p),
{
    let t = s.insert(j, (key, v));
    assert(t =~= s.take(j) + seq![(key, v)] + s.skip(j));
    assert(t.len() == s.len() + 1);
    assert forall|i: int| 0 <= i < t.len() implies (#[trigger] t[i]).0 == (if i < j {
        s[i].0
    } else if i == j {
        key
    } else {
        s[i - 1].0
    }) by {}
    assert forall|a: int, b: int| 0 <= a < b < t.len() implies #[trigger] lex_lt(
        t[a].0,
        t[b].0,
    ) by {
        if a < j && b < j {
            assert(lex_lt(s[a].0, s[b].0));
        } else if a < j && b == j {
            assert(lex_lt(s[a].0, key));
        } else if a < j && b > j {
            assert(lex_lt(s[a].0, s[b - 1].0));
        } else if a == j && b > j {
            assert(lex_lt(key, s[b - 1].0));
        } else if a > j && b > j {
            assert(lex_lt(s[a - 1].0, s[b - 1].0));
        }
    }
    assert forall|p: Seq<char>| has_pool(t, p) == (has_pool(s, p) || p == key) by {
        if has_pool(t, p) {
            let i = choose|i: int| 0 <= i < t.len() && (#[trigger] t[i]).0 == p;
            if i < j {
                assert(s[i].0 == p);
            } else if i > j {
                assert(s[i - 1].0 == p);
            }
        }
        if has_pool(s, p) {
            let i = choose|i: int| 0 <= i < s.len() && (#[trigger] s[i]).0 == p;
            if i < j {
                assert(t[i].0 == p);
            } else {
                assert(t[i + 1].0 == p);
            }
        }
        if p == key {
            assert(t[j].0 == p);
        }
    }
    assert forall|p: Seq<char>|
        pool_sum(t, p) == pool_sum(s, p) + contribution((key, v), p) by {
        assert(s =~= s.take(j) + s.skip(j));
        lemma_pool_sum_concat(s.take(j), s.skip(j), p);
        lemma_pool_sum_concat(s.take(j) + seq![(key, v)], s.skip(j), p);
        lemma_pool_sum_concat(s.take(j), seq![(key, v)], p);
        lemma_singleton_sum((key, v), p);
    }
}

/// The sum over a single pair is its contribution.
proof fn lemma_singleton_sum(q: (Seq<char>, u128), p: Seq<char>)
    ensures
        pool_sum(seq![q], p) == contribution(q, p),
{
    assert(seq![q].len() == 1);
    assert(seq![q].last() == q);
    assert(seq![q].drop_last() =~= Seq::<(Seq<char>, u128)>::empty());
    assert(pool_sum(Seq::<(Seq<char>, u128)>::empty(), p) == 0);
}

/// Aggregate a list of entries, totalling amounts per pool.
///
/// Fails exactly when some pool's exact total exceeds the amount type;
/// otherwise the result is precisely the aggregated map of the input.
pub fn try_aggregate(entries: &Vec<StakeEntry>) -> (r: Option<PoolStakeMap>)
    ensures
        r is Some <==> (forall|p: Seq<char>|
            pool_sum(entry_views(entries@), p) <= u128::MAX),
        r is Some ==> (r->0).wf() && stake_map((r->0)@) == stake_map(entry_views(entries@)),
{
    let ghost ev = entry_views(entries@);
    let n = entries.len();
    let mut m = PoolStakeMap::new();
    let mut i: usize = 0;
    proof {
        assert(ev.take(0) =~= Seq::<(Seq<char>, u128)>::empty());
    }
    while i < n
        invariant
            n == entries@.len(),
            ev == entry_views(entries@),
            0 <= i <= n,
            m.wf(),
            forall|p: Seq<char>| has_pool(m@, p) == has_pool(ev.take(i as int), p),
            forall|p: Seq<char>| pool_sum(m@, p) == pool_sum(ev.take(i as int), p),
        decreases n - i,
    {
        let e = &entries[i];
        proof {
            assert(ev[i as int] == (e.pool_id@, e.amount));
            assert(ev.take(i + 1).drop_last() =~= ev.take(i as int));
            assert(ev.take(i + 1).last() == ev[i as int]);
        }
        let ghost m0 = m@;
        let ok = m.add_entry(&e.pool_id, e.amount);
        if !ok {
            proof {
                assert(pool_sum(ev.take(i + 1), e.pool_id@) == pool_sum(ev.take(i as int), e.pool_id@)
                    + contribution(ev[i as int], e.pool_id@));
                lemma_pool_sum_prefix_le(ev, i + 1, e.pool_id@);
                assert(pool_sum(ev, e.pool_id@) > u128::MAX);
            }
            return None;
        }
        proof {
            assert forall|p: Seq<char>| has_pool(m@, p) == has_pool(
                ev.take(i + 1),
                p,
            ) by {
                assert(has_pool(ev.take(i + 1), p) == (has_pool(ev.take(i as int), p) || ev[i as int].0
                    == p)) by {
                    if has_pool(ev.take(i + 1), p) {
                        let a = choose|a: int|
                            0 <= a < ev.take(i + 1).len() && (#[trigger] ev.take(i + 1)[a]).0 == p;
                        if a < i {
                            assert(ev.take(i as int)[a].0 == p);
                        }
                    }
                    if has_pool(ev.take(i as int), p) {
                        let a = choose|a: int|
                            0 <= a < ev.take(i as int).len() && (#[trigger] ev.take(i as int)[a]).0 == p;
                        assert(ev.take(i + 1)[a].0 == p);
                    }
                    if ev[i as int].0 == p {
                        assert(ev.take(i + 1)[i as int].0 == p);
                    }
                }
            }
            assert forall|p: Seq<char>| pool_sum(m@, p) == pool_sum(ev.take(i + 1), p) by {
                assert(pool_sum(m@, p) == pool_sum(m0, p) + contribution((e.pool_id@, e.amount), p));
                assert(pool_sum(ev.take(i + 1), p) == pool_sum(ev.take(i as int), p) + contribution(
                    ev[i as int],
                    p,
                ));
            }
        }
        i = i + 1;
    }
    proof {
        assert(ev.take(n as int) =~= ev);
        lemma_sorted_distinct(m@);
        assert forall|p: Seq<char>| pool_sum(ev, p) <= u128::MAX by {
            lemma_pool_sum_bounded(m@, p);
        }
        assert(stake_map(m@) =~= stake_map(ev));
    }
    Some(m)
}

/// Aggregate a list of entries whose totals are known to fit the
/// amount type, as they do for any actual stake distribution.
pub fn aggregate(entries: &Vec<StakeEntry>) -> (m: PoolStakeMap)
    requires
        forall|p: Seq<char>| pool_sum(entry_views(entries@), p) <= u128::MAX,
    ensures
        m.wf(),
        stake_map(m@) == stake_map(entry_views(entries@)),
{
    try_aggregate(entries).unwrap()
}

/// Two well-formed maps with the same aggregated content are the same
/// sequence of pairs: the sorted form is canonical.
pub proof fn lemma_canonical(s1: Seq<(Seq<char>, u128)>, s2: Seq<(Seq<char>, u128)>)
    requires
        strictly_sorted(s1),
        strictly_sorted(s2),
        stake_map(s1) == stake_map(s2),
    ensures
        s1 == s2,
    decreases s1.len(),
{
    assert forall|p: Seq<char>| has_pool(s1, p) == has_pool(s2, p) by {
        assert(stake_map(s1).dom() == stake_map(s2).dom());
        assert(stake_map(s1).dom().contains(p) == has_pool(s1, p));
        assert(stake_map(s2).dom().contains(p) == has_pool(s2, p));
    }
    if s1.len() == 0 && s2.len() == 0 {
        assert(s1 =~= s2);
    } else if s1.len() == 0 {
        assert(has_pool(s2, s2[0].0));
        assert(!has_pool(s1, s2[0].0));
    } else if s2.len() == 0 {
        assert(has_pool(s1, s1[0].0));
        assert(!has_pool(s2, s1[0].0));
    } else {
        let k1 = s1[0].0;
        let k2 = s2[0].0;
        assert(k1 == k2) by {
            if k1 != k2 {
                assert(has_pool(s1, k1));
                assert(has_pool(s2, k1));
                let j = choose|j: int| 0 <= j < s2.len() && (#[trigger] s2[j]).0 == k1;
                assert(j != 0);
                assert(lex_lt(k2, k1));
                assert(has_pool(s2, k2));
                assert(has_pool(s1, k2));
                let i = choose|i: int| 0 <= i < s1.len() && (#[trigger] s1[i]).0 == k2;
                assert(i != 0);
                assert(lex_lt(k1, k2));
                lemma_lex_asym(k1, k2);
            }
        }
        lemma_sorted_distinct(s1);
        lemma_sorted_distinct(s2);
        assert(s1[0].1 == s2[0].1) by {
            lemma_pool_sum_at(s1, 0);
            lemma_pool_sum_at(s2, 0);
            assert(stake_map(s1)[k1] == pool_sum(s1, k1));
            assert(stake_map(s2)[k1] == pool_sum(s2, k1));
        }
        let t1 = s1.skip(1);
        let t2 = s2.skip(1);
        assert(s1 =~= seq![s1[0]] + t1);
        assert(s2 =~= seq![s2[0]] + t2);
        assert(strictly_sorted(t1)) by {
            assert forall|a: int, b: int| 0 <= a < b < t1.len() implies #[trigger] lex_lt(
                t1[a].0,
                t1[b].0,
            ) by {
                assert(lex_lt(s1[a + 1].0, s1[b + 1].0));
            }
        }
        assert(strictly_sorted(t2)) by {
            assert forall|a: int, b: int| 0 <= a < b < t2.len() implies #[trigger] lex_lt(
                t2[a].0,
                t2[b].0,
            ) by {
                assert(lex_lt(s2[a + 1].0, s2[b + 1].0));
            }
        }
        assert forall|p: Seq<char>| has_pool(t1, p) == has_pool(t2, p) by {
            lemma_skip_has_pool(s1, p);
            lemma_skip_has_pool(s2, p);
        }
        assert forall|p: Seq<char>| has_pool(t1, p) implies pool_sum(t1, p) == pool_sum(t2, p) by {
            if has_pool(t1, p) {
                lemma_skip_has_pool(s1, p);
                lemma_skip_has_pool(s2, p);
                assert(p != k1);
                lemma_pool_sum_concat(seq![s1[0]], t1, p);
                lemma_pool_sum_concat(seq![s2[0]], t2, p);
                lemma_singleton_sum(s1[0], p);
                lemma_singleton_sum(s2[0], p);
                assert(has_pool(s1, p));
                assert(stake_map(s1)[p] == pool_sum(s1, p));
                assert(stake_map(s2)[p] == pool_sum(s2, p));
            }
        }
        assert(stake_map(t1) =~= stake_map(t2)) by {
            assert forall|p: Seq<char>|
                stake_map(t1).dom().contains(p) == stake_map(t2).dom().contains(p) by {}
            assert forall|p: Seq<char>| stake_map(t1).dom().contains(p) implies stake_map(t1)[p]
                == stake_map(t2)[p] by {}
        }
        lemma_canonical(t1, t2);
        assert(s1[0] == s2[0]);
        assert(s1 =~= s2);
    }
}

/// In a distinct-keyed sequence, the tail holds exactly the pools of the
/// whole other than the head's.
proof fn lemma_skip_has_pool(s: Seq<(Seq<char>, u128)>, p: Seq<char>)
    requires
        s.len() > 0,
        strictly_sorted(s),
    ensures
        has_pool(s.skip(1), p) == (has_pool(s, p) && p != s[0].0),
{
    lemma_sorted_distinct(s);
    let t = s.skip(1);
    if has_pool(t, p) {
        let a = choose|a: int| 0 <= a < t.len() && (#[trigger] t[a]).0 == p;
        assert(s[a + 1].0 == p);
        assert(s[a + 1].0 != s[0].0);
    }
    if has_pool(s, p) && p != s[0].0 {
        let a = choose|a: int| 0 <= a < s.len() && (#[trigger] s[a]).0 == p;
        assert(a != 0);
        assert(t[a - 1].0 == p);
    }
}


/// Aggregation is commutative and associative in entry order: the
/// well-formed aggregated maps of two permuted entry lists — as
/// `aggregate` delivers them — are identical, pair for pair.
pub proof fn lemma_aggregate_permutation(
    e1: Seq<StakeEntry>,
    e2: Seq<StakeEntry>,
    m1: Seq<(Seq<char>, u128)>,
    m2: Seq<(Seq<char>, u128)>,
)
    requires
        e1.to_multiset() == e2.to_multiset(),
        strictly_sorted(m1),
        strictly_sorted(m2),
        stake_map(m1) == stake_map(entry_views(e1)),
        stake_map(m2) == stake_map(entry_views(e2)),
    ensures
        m1 == m2,
{
    lemma_entry_views_permutation(e1, e2);
    lemma_stake_map_permutation(entry_views(e1), entry_views(e2));
    lemma_canonical(m1, m2);
}


/// Aggregating no entries yields the empty map: a well-formed result
/// with the aggregated content of an empty entry list has no pairs.
pub proof fn lemma_aggregate_empty(m: Seq<(Seq<char>, u128)>)
    requires
        strictly_sorted(m),
        stake_map(m) == stake_map(entry_views(Seq::<StakeEntry>::empty())),
    ensures
        m == Seq::<(Seq<char>, u128)>::empty(),
{
    assert(entry_views(Seq::<StakeEntry>::empty()) =~= Seq::<(Seq<char>, u128)>::empty());
    lemma_canonical(m, Seq::<(Seq<char>, u128)>::empty());
}

} // verus!


