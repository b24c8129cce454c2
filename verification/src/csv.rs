//! CSV serialization of the aggregated result.
//!
//! The text is a fixed header line followed by one `pool_id,stake` row
//! per pool, ascending by pool identifier. Rendering reads only the
//! aggregated content, so equal maps give byte-identical text.

use vstd::prelude::*;

use crate::amount::{dec_str, dec_val, is_dec, lemma_dec_str_is_dec, lemma_dec_val_dec_str, u128_to_dec};
use crate::entries::stake_map;
use crate::pool_map::{lemma_canonical, strictly_sorted, PoolStakeMap};

verus! {

/// The header line `pool_id,stake` with its newline.
pub open spec fn csv_header() -> Seq<char> {
    seq!['p', 'o', 'o', 'l', '_', 'i', 'd', ',', 's', 't', 'a', 'k', 'e', '\n']
}

/// One data row: pool identifier, comma, decimal amount, newline.
pub open spec fn csv_row(q: (Seq<char>, u128)) -> Seq<char> {
    q.0 + seq![','] + dec_str(q.1 as nat) + seq!['\n']
}

/// The data rows for the pairs of `s`, in order.
pub open spec fn csv_rows(s: Seq<(Seq<char>, u128)>) -> Seq<char>
    decreases s.len(),
{
    if s.len() == 0 {
        Seq::empty()
    } else {
        csv_row(s[0]) + csv_rows(s.skip(1))
    }
}

/// The whole file: header, then the rows.
pub open spec fn csv_text(s: Seq<(Seq<char>, u128)>) -> Seq<char> {
    csv_header() + csv_rows(s)
}

/// Appending a pair appends its row.
pub proof fn lemma_csv_rows_push(s: Seq<(Seq<char>, u128)>, x: (Seq<char>, u128))
    ensures
        csv_rows(s.push(x)) == csv_rows(s) + csv_row(x),
    decreases s.len(),
{
    if s.len() == 0 {
        assert(s.push(x)[0] == x);
        assert(s.push(x).skip(1) =~= Seq::<(Seq<char>, u128)>::empty());
        assert(csv_rows(Seq::<(Seq<char>, u128)>::empty()) =~= Seq::<char>::empty());
        assert(csv_rows(s.push(x)) == csv_row(x) + csv_rows(Seq::<(Seq<char>, u128)>::empty()));
        assert(csv_row(x) + Seq::<char>::empty() =~= csv_row(x));
        assert(csv_rows(s) + csv_row(x) =~= csv_row(x));
    } else {
        assert(s.push(x).skip(1) =~= s.skip(1).push(x));
        lemma_csv_rows_push(s.skip(1), x);
        assert(s.push(x)[0] == s[0]);
        assert(csv_row(s[0]) + (csv_rows(s.skip(1)) + csv_row(x)) =~= (csv_row(s[0]) + csv_rows(
            s.skip(1),
        )) + csv_row(x));
    }
}

/// Render the aggregated map as CSV text.
pub fn csv_content(m: &PoolStakeMap) -> (r: String)
    ensures
        r@ == csv_text(m@),
{
    proof {
        reveal_strlit("pool_id,stake\n");
    }
    let mut out = String::from_str("pool_id,stake\n");
    proof {
        assert(out@ =~= csv_header());
        assert(m@.take(0) =~= Seq::<(Seq<char>, u128)>::empty());
        assert(out@ =~= csv_header() + csv_rows(m@.take(0)));
    }
    let n = m.len();
    let mut i: usize = 0;
    while i < n
        invariant
            n == m@.len(),
            0 <= i <= n,
            out@ == csv_header() + csv_rows(m@.take(i as int)),
        decreases n - i,
    {
        out.append(m.key_at(i).as_str());
        proof {
            reveal_strlit(",");
        }
        out.append(",");
        let a = u128_to_dec(m.amount_at(i));
        out.append(a.as_str());
        proof {
            reveal_strlit("\n");
        }
        out.append("\n");
        proof {
            assert(","@ =~= seq![',']);
            assert("\n"@ =~= seq!['\n']);
            assert(m@.take(i + 1) =~= m@.take(i as int).push(m@[i as int]));
            lemma_csv_rows_push(m@.take(i as int), m@[i as int]);
            assert(out@ =~= csv_header() + csv_rows(m@.take(i + 1)));
        }
        i = i + 1;
    }
    proof {
        assert(m@.take(n as int) =~= m@);
    }
    out
}

/// Rendering is deterministic: two well-formed maps with the same
/// aggregated content, however they were built up, render to identical
/// text.
pub proof fn lemma_csv_deterministic(s1: Seq<(Seq<char>, u128)>, s2: Seq<(Seq<char>, u128)>)
    requires
        strictly_sorted(s1),
        strictly_sorted(s2),
        stake_map(s1) == stake_map(s2),
    ensures
        csv_text(s1) == csv_text(s2),
{
    lemma_canonical(s1, s2);
}


/// The index of the first occurrence of `c` in `s`, or -1 if none.
pub open spec fn find_ch(s: Seq<char>, c: char) -> int
    decreases s.len(),
{
    if s.len() == 0 {
        -1
    } else if s[0] == c {
        0
    } else {
        let r = find_ch(s.skip(1), c);
        if r < 0 {
            -1
        } else {
            r + 1
        }
    }
}

/// `find_ch` finds exactly the first occurrence.
pub proof fn lemma_find_ch_at(s: Seq<char>, c: char, r: int)
    requires
        0 <= r < s.len(),
        s[r] == c,
        forall|j: int| 0 <= j < r ==> s[j] != c,
    ensures
        find_ch(s, c) == r,
    decreases r,
{
    if r == 0 {
    } else {
        assert(s[0] != c);
        assert forall|j: int| 0 <= j < r - 1 implies s.skip(1)[j] != c by {
            assert(s.skip(1)[j] == s[j + 1]);
        }
        assert(s.skip(1)[r - 1] == s[r]);
        lemma_find_ch_at(s.skip(1), c, r - 1);
    }
}

/// Read one data row, without its newline: the pool identifier up to
/// the first comma, then a decimal amount.
pub open spec fn parse_line(line: Seq<char>) -> Option<(Seq<char>, u128)> {
    let ci = find_ch(line, ',');
    if ci < 0 {
        None
    } else {
        let pid = line.take(ci);
        let a = line.skip(ci + 1);
        if is_dec(a) && dec_val(a) <= u128::MAX {
            Some((pid, dec_val(a) as u128))
        } else {
            None
        }
    }
}

/// Read newline-terminated data rows.
pub open spec fn parse_rows(t: Seq<char>) -> Option<Seq<(Seq<char>, u128)>>
    decreases t.len(),
{
    if t.len() == 0 {
        Some(Seq::empty())
    } else {
        let li = find_ch(t, '\n');
        if li < 0 || li >= t.len() {
            None
        } else {
            match parse_line(t.take(li)) {
                None => None,
                Some(q) => match parse_rows(t.skip(li + 1)) {
                    None => None,
                    Some(s) => Some(seq![q] + s),
                },
            }
        }
    }
}

/// Read a whole file back: the fixed header line, then the data rows.
pub open spec fn parse_csv(t: Seq<char>) -> Option<Seq<(Seq<char>, u128)>> {
    if t.len() >= 14 && t.take(14) == csv_header() {
        parse_rows(t.skip(14))
    } else {
        None
    }
}

/// A pool identifier the format can carry: no comma, no newline. The
/// upstream identifier format guarantees this; it is not validated here.
pub open spec fn plain_key(k: Seq<char>) -> bool {
    forall|i: int| 0 <= i < k.len() ==> #[trigger] k[i] != ',' && k[i] != '\n'
}

/// Whether every pool identifier of `s` is plain.
pub open spec fn plain_keys(s: Seq<(Seq<char>, u128)>) -> bool {
    forall|i: int| 0 <= i < s.len() ==> plain_key((#[trigger] s[i]).0)
}

/// Digit sequences carry neither comma nor newline.
proof fn lemma_dec_chars(a: Seq<char>)
    requires
        is_dec(a),
    ensures
        forall|i: int| 0 <= i < a.len() ==> #[trigger] a[i] != ',' && a[i] != '\n',
{
    assert(!crate::amount::is_digit(','));
    assert(!crate::amount::is_digit('\n'));
}

/// A rendered row, less its newline, reads back as its pair.
proof fn lemma_parse_line(k: Seq<char>, v: u128)
    requires
        plain_key(k),
    ensures
        parse_line(k + seq![','] + dec_str(v as nat)) == Some((k, v)),
{
    let d = dec_str(v as nat);
    let line = k + seq![','] + d;
    lemma_dec_str_is_dec(v as nat);
    lemma_dec_val_dec_str(v as nat);
    assert(line[k.len() as int] == ',');
    assert forall|j: int| 0 <= j < k.len() implies line[j] != ',' by {
        assert(line[j] == k[j]);
    }
    lemma_find_ch_at(line, ',', k.len() as int);
    assert(line.take(k.len() as int) =~= k);
    assert(line.skip(k.len() as int + 1) =~= d);
}

/// The rendered rows read back as exactly the pairs they came from.
proof fn lemma_parse_rows(s: Seq<(Seq<char>, u128)>)
    requires
        plain_keys(s),
    ensures
        parse_rows(csv_rows(s)) == Some(s),
    decreases s.len(),
{
    if s.len() == 0 {
        assert(s =~= Seq::<(Seq<char>, u128)>::empty());
    } else {
        let q = s[0];
        let d = dec_str(q.1 as nat);
        let line = q.0 + seq![','] + d;
        let row = csv_row(q);
        let rest = csv_rows(s.skip(1));
        let t = csv_rows(s);
        assert(t == row + rest);
        assert(row =~= line + seq!['\n']);
        let ll = line.len() as int;
        assert(t[ll] == '\n');
        lemma_dec_str_is_dec(q.1 as nat);
        lemma_dec_chars(d);
        assert forall|j: int| 0 <= j < ll implies t[j] != '\n' by {
            assert(t[j] == line[j]);
            if j < q.0.len() {
                assert(line[j] == q.0[j]);
            } else if j == q.0.len() {
                assert(line[j] == ',');
            } else {
                assert(line[j] == d[j - q.0.len() - 1]);
            }
        }
        lemma_find_ch_at(t, '\n', ll);
        assert(t.take(ll) =~= line);
        assert(t.skip(ll + 1) =~= rest);
        lemma_parse_line(q.0, q.1);
        assert(parse_line(line) == Some((q.0, q.1)));
        assert forall|i: int| 0 <= i < s.skip(1).len() implies plain_key(
            (#[trigger] s.skip(1)[i]).0,
        ) by {
            assert(s.skip(1)[i] == s[i + 1]);
        }
        lemma_parse_rows(s.skip(1));
        assert(seq![(q.0, q.1)] + s.skip(1) =~= s);
    }
}

/// Round trip: reading the rendered file back — header dropped, each
/// row split at its comma, amounts read as decimals — recovers exactly
/// the pairs of the map, so summing them per pool reproduces the
/// aggregated content unchanged.
pub proof fn lemma_csv_round_trip(s: Seq<(Seq<char>, u128)>)
    requires
        plain_keys(s),
    ensures
        parse_csv(csv_text(s)) == Some(s),
{
    let t = csv_text(s);
    assert(t.take(14) =~= csv_header());
    assert(t.skip(14) =~= csv_rows(s));
    lemma_parse_rows(s);
}

} // verus!

