//! Decimal representation of stake amounts.
//!
//! Stake amounts travel as decimal strings and are held as `u128`.
//! This module defines the mathematical decimal representation and the
//! verified conversions in both directions.

use vstd::prelude::*;

verus! {

/// The numeric value of a decimal digit character.
pub open spec fn digit_val(c: char) -> int {
    c as u32 - '0' as u32
}

/// Whether `c` is a decimal digit.
pub open spec fn is_digit(c: char) -> bool {
    '0' as u32 <= c as u32 <= '9' as u32
}

/// Whether `s` is a decimal representation: nonempty and all digits.
pub open spec fn is_dec(s: Seq<char>) -> bool {
    s.len() > 0 && forall|i: int| 0 <= i < s.len() ==> is_digit(#[trigger] s[i])
}

/// The numeric value of a digit sequence, most significant digit first.
pub open spec fn dec_val(s: Seq<char>) -> int
    decreases s.len(),
{
    if s.len() == 0 {
        0
    } else {
        dec_val(s.drop_last()) * 10 + digit_val(s.last())
    }
}

/// The digit character for a value in 0..=9.
pub open spec fn digit_char(d: int) -> char {
    if d == 0 {
        '0'
    } else if d == 1 {
        '1'
    } else if d == 2 {
        '2'
    } else if d == 3 {
        '3'
    } else if d == 4 {
        '4'
    } else if d == 5 {
        '5'
    } else if d == 6 {
        '6'
    } else if d == 7 {
        '7'
    } else if d == 8 {
        '8'
    } else {
        '9'
    }
}

/// The canonical decimal representation of `n`: no leading zeros
/// except for the single digit `0` itself.
pub open spec fn dec_str(n: nat) -> Seq<char>
    decreases n,
{
    if n < 10 {
        seq![digit_char(n as int)]
    } else {
        dec_str(n / 10) + seq![digit_char((n % 10) as int)]
    }
}

/// The value of a digit sequence is nonnegative.
pub proof fn lemma_dec_val_nonneg(s: Seq<char>)
    requires
        forall|i: int| 0 <= i < s.len() ==> is_digit(#[trigger] s[i]),
    ensures
        dec_val(s) >= 0,
    decreases s.len(),
{
    if s.len() > 0 {
        lemma_dec_val_nonneg(s.drop_last());
    }
}

/// Extending a digit sequence never lowers its value.
pub proof fn lemma_dec_val_prefix_le(s: Seq<char>, i: int)
    requires
        0 <= i <= s.len(),
        forall|j: int| 0 <= j < s.len() ==> is_digit(#[trigger] s[j]),
    ensures
        dec_val(s.take(i)) <= dec_val(s),
    decreases s.len() - i,
{
    if i < s.len() {
        let t = s.take(i + 1);
        assert(t.drop_last() =~= s.take(i));
        lemma_dec_val_nonneg(s.take(i));
        lemma_dec_val_prefix_le(s, i + 1);
        assert(s.take(s.len() as int) =~= s);
    } else {
        assert(s.take(i) =~= s);
    }
}

/// The canonical representation consists of digits.
pub proof fn lemma_dec_str_is_dec(n: nat)
    ensures
        is_dec(dec_str(n)),
    decreases n,
{
    if n >= 10 {
        lemma_dec_str_is_dec(n / 10);
    }
}

/// A digit character reads back as its value.
pub proof fn lemma_digit_roundtrip(d: int)
    requires
        0 <= d <= 9,
    ensures
        digit_val(digit_char(d)) == d,
{
    assert(digit_val('0') == 0);
    assert(digit_val('1') == 1);
    assert(digit_val('2') == 2);
    assert(digit_val('3') == 3);
    assert(digit_val('4') == 4);
    assert(digit_val('5') == 5);
    assert(digit_val('6') == 6);
    assert(digit_val('7') == 7);
    assert(digit_val('8') == 8);
    assert(digit_val('9') == 9);
}

/// Reading the canonical representation back gives the number.
pub proof fn lemma_dec_val_dec_str(n: nat)
    ensures
        dec_val(dec_str(n)) == n,
    decreases n,
{
    if n < 10 {
        lemma_digit_roundtrip(n as int);
        assert(dec_str(n) == seq![digit_char(n as int)]);
        assert(dec_str(n).len() == 1);
        assert(dec_str(n).last() == digit_char(n as int));
        assert(dec_str(n).drop_last() =~= Seq::<char>::empty());
        assert(dec_val(Seq::<char>::empty()) == 0);
        assert(dec_val(dec_str(n)) == dec_val(dec_str(n).drop_last()) * 10 + digit_val(
            dec_str(n).last(),
        ));
    } else {
        lemma_dec_val_dec_str(n / 10);
        lemma_digit_roundtrip((n % 10) as int);
        assert(dec_str(n) == dec_str(n / 10) + seq![digit_char((n % 10) as int)]);
        assert(dec_str(n).drop_last() =~= dec_str(n / 10));
        assert(dec_str(n).last() == digit_char((n % 10) as int));
        assert((n / 10) * 10 + n % 10 == n) by {
            vstd::arithmetic::div_mod::lemma_fundamental_div_mod(n as int, 10);
        }
    }
}

/// Parse a decimal string into a `u128`.
///
/// Succeeds exactly on nonempty all-digit strings whose value fits in
/// 128 bits; anything else (empty, sign, non-digit, overflow) is `None`.
pub fn parse_u128(s: &str) -> (r: Option<u128>)
    ensures
        r == (if is_dec(s@) && dec_val(s@) <= u128::MAX {
            Some(dec_val(s@) as u128)
        } else {
            None::<u128>
        }),
{
    let n = s.unicode_len();
    if n == 0 {
        return None;
    }
    let mut acc: u128 = 0;
    let mut i: usize = 0;
    while i < n
        invariant
            0 < n == s@.len(),
            0 <= i <= n,
            forall|j: int| 0 <= j < i ==> is_digit(#[trigger] s@[j]),
            acc == dec_val(s@.take(i as int)),
        decreases n - i,
    {
        let c = s.get_char(i);
        let v = c as u32;
        if v < 48 || v > 57 {
            assert(!is_digit(s@[i as int]));
            return None;
        }
        let d = (v - 48) as u128;
        assert(is_digit(s@[i as int]));
        assert(d == digit_val(s@[i as int]));
        if acc > (u128::MAX - d) / 10 {
            proof {
                let t = s@.take(i + 1);
                assert(t.drop_last() =~= s@.take(i as int));
                assert(t.last() == s@[i as int]);
                assert(dec_val(t) == acc * 10 + d);
                let fl = (u128::MAX - d) / 10;
                assert(acc >= fl + 1);
                assert(fl * 10 + (u128::MAX - d) % 10 == u128::MAX - d) by {
                    vstd::arithmetic::div_mod::lemma_fundamental_div_mod(
                        (u128::MAX - d) as int,
                        10,
                    );
                }
                assert(acc * 10 >= (fl + 1) * 10) by (nonlinear_arith)
                    requires
                        acc >= fl + 1,
                ;
                assert(dec_val(t) > u128::MAX);
                if is_dec(s@) {
                    lemma_dec_val_prefix_le(s@, i + 1);
                }
            }
            return None;
        }
        proof {
            let fl = (u128::MAX - d) / 10;
            assert(fl * 10 + (u128::MAX - d) % 10 == u128::MAX - d) by {
                vstd::arithmetic::div_mod::lemma_fundamental_div_mod((u128::MAX - d) as int, 10);
            }
            assert(acc * 10 <= fl * 10) by (nonlinear_arith)
                requires
                    acc <= fl,
            ;
            let t = s@.take(i + 1);
            assert(t.drop_last() =~= s@.take(i as int));
            assert(t.last() == s@[i as int]);
        }
        acc = acc * 10 + d;
        i = i + 1;
    }
    proof {
        assert(s@.take(n as int) =~= s@);
    }
    Some(acc)
}

/// One digit as a string slice.
fn digit_str(d: u128) -> (r: &'static str)
    requires
        d < 10,
    ensures
        r@ == seq![digit_char(d as int)],
{
    if d == 0 {
        proof {
            reveal_strlit("0");
        }
        let r = "0";
        assert(r@ =~= seq![digit_char(d as int)]);
        r
    } else if d == 1 {
        proof {
            reveal_strlit("1");
        }
        let r = "1";
        assert(r@ =~= seq![digit_char(d as int)]);
        r
    } else if d == 2 {
        proof {
            reveal_strlit("2");
        }
        let r = "2";
        assert(r@ =~= seq![digit_char(d as int)]);
        r
    } else if d == 3 {
        proof {
            reveal_strlit("3");
        }
        let r = "3";
        assert(r@ =~= seq![digit_char(d as int)]);
        r
    } else if d == 4 {
        proof {
            reveal_strlit("4");
        }
        let r = "4";
        assert(r@ =~= seq![digit_char(d as int)]);
        r
    } else if d == 5 {
        proof {
            reveal_strlit("5");
        }
        let r = "5";
        assert(r@ =~= seq![digit_char(d as int)]);
        r
    } else if d == 6 {
        proof {
            reveal_strlit("6");
        }
        let r = "6";
        assert(r@ =~= seq![digit_char(d as int)]);
        r
    } else if d == 7 {
        proof {
            reveal_strlit("7");
        }
        let r = "7";
        assert(r@ =~= seq![digit_char(d as int)]);
        r
    } else if d == 8 {
        proof {
            reveal_strlit("8");
        }
        let r = "8";
        assert(r@ =~= seq![digit_char(d as int)]);
        r
    } else {
        proof {
            reveal_strlit("9");
        }
        let r = "9";
        assert(r@ =~= seq![digit_char(d as int)]);
        r
    }
}

/// Format `n` as its canonical decimal string.
pub fn u128_to_dec(n: u128) -> (r: String)
    ensures
        r@ == dec_str(n as nat),
    decreases n,
{
    if n < 10 {
        let r = digit_str(n).to_owned();
        r
    } else {
        let rest = u128_to_dec(n / 10);
        let r = rest.concat(digit_str(n % 10));
        r
    }
}

/// The decimal representation of a signed epoch number: a leading `-`
/// for negative values, canonical digits for the magnitude.
pub open spec fn int_dec(v: int) -> Seq<char> {
    if v < 0 {
        seq!['-'] + dec_str((-v) as nat)
    } else {
        dec_str(v as nat)
    }
}

/// Format a signed epoch number in decimal.
pub fn i32_to_dec(e: i32) -> (r: String)
    ensures
        r@ == int_dec(e as int),
{
    if e < 0 {
        let mag = (-(e as i64)) as u128;
        proof {
            reveal_strlit("-");
        }
        let sign = String::from_str("-");
        assert(sign@ =~= seq!['-']);
        let r = sign.concat(u128_to_dec(mag).as_str());
        r
    } else {
        u128_to_dec(e as u128)
    }
}

} // verus!
