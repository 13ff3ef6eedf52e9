//! Shard filenames: the fixed prefix `shard_` followed by the decimal index,
//! zero-padded on the left to at least four digits. For indices up to 9999
//! the lexicographic order of these names agrees with the numeric order of
//! the indices; past that boundary the agreement breaks down.

use vstd::prelude::*;
use crate::bytes::lex_less;
use crate::bytes::lemma_lex_less_common_prefix;
use crate::bytes::lemma_lex_less_append;
use crate::bytes::lemma_lex_less_first_diff;

verus! {

/// The bytes of the fixed filename prefix, `shard_`.
pub open spec fn shard_prefix() -> Seq<u8> {
    seq![115u8, 104u8, 97u8, 114u8, 100u8, 95u8]
}

/// The decimal digits of `n` as ASCII bytes, most significant first.
pub open spec fn dec_digits(n: nat) -> Seq<u8>
    decreases n,
{
    if n < 10 {
        seq![(48 + n) as u8]
    } else {
        dec_digits(n / 10) + seq![(48 + n % 10) as u8]
    }
}

/// `k` ASCII zeros, the left padding of a short index.
pub open spec fn zeros(k: nat) -> Seq<u8> {
    Seq::new(k, |i: int| 48u8)
}

/// The digits of `n`, left-padded with ASCII zeros to at least four places.
pub open spec fn padded_digits(n: nat) -> Seq<u8> {
    if dec_digits(n).len() >= 4 {
        dec_digits(n)
    } else {
        zeros((4 - dec_digits(n).len()) as nat) + dec_digits(n)
    }
}

/// The filename under which the shard of index `i` is persisted.
pub open spec fn shard_name_spec(i: nat) -> Seq<u8> {
    shard_prefix() + padded_digits(i)
}

/// A filename that reassembly accepts: one starting with the shard prefix.
pub open spec fn has_shard_prefix(n: Seq<u8>) -> bool {
    shard_prefix().is_prefix_of(n)
}

pub proof fn lemma_dec_digits_len_bounds(n: nat)
    ensures
        1 <= dec_digits(n).len(),
        n < 10 ==> dec_digits(n).len() == 1,
        10 <= n && n < 100 ==> dec_digits(n).len() == 2,
        100 <= n && n < 1000 ==> dec_digits(n).len() == 3,
        1000 <= n && n < 10000 ==> dec_digits(n).len() == 4,
        10000 <= n ==> 5 <= dec_digits(n).len(),
        n <= 9999 ==> dec_digits(n).len() <= 4,
        10 <= n ==> 2 <= dec_digits(n).len(),
        dec_digits(n).len() <= 4 ==> n <= 9999,
    decreases n,
{
    if n >= 10 {
        lemma_dec_digits_len_bounds(n / 10);
    }
}

pub proof fn lemma_dec_digits_len_mono(i: nat, j: nat)
    requires
        i <= j,
    ensures
        dec_digits(i).len() <= dec_digits(j).len(),
    decreases j,
{
    if i >= 10 {
        lemma_dec_digits_len_mono(i / 10, j / 10);
    } else {
        lemma_dec_digits_len_bounds(j);
    }
}

/// The leading digit of a positive number is not zero.
pub proof fn lemma_dec_digits_leading(n: nat)
    requires
        1 <= n,
    ensures
        49 <= dec_digits(n)[0],
    decreases n,
{
    if n >= 10 {
        lemma_dec_digits_len_bounds(n / 10);
        assert(dec_digits(n)[0] == dec_digits(n / 10)[0]);
        lemma_dec_digits_leading(n / 10);
    }
}

/// Digit strings of equal length order exactly as the numbers they denote.
pub proof fn lemma_dec_digits_order(i: nat, j: nat)
    requires
        i < j,
        dec_digits(i).len() == dec_digits(j).len(),
    ensures
        lex_less(dec_digits(i), dec_digits(j)),
    decreases j,
{
    if j < 10 {
        assert(lex_less(dec_digits(i), dec_digits(j)));
    } else {
        lemma_dec_digits_len_bounds(j);
        if i < 10 {
            lemma_dec_digits_len_bounds(i);
            assert(false);
        } else {
            vstd::arithmetic::div_mod::lemma_div_is_ordered(i as int, j as int, 10);
            if i / 10 == j / 10 {
                assert(i % 10 < j % 10);
                lemma_lex_less_common_prefix(
                    dec_digits(i / 10),
                    seq![(48 + i % 10) as u8],
                    seq![(48 + j % 10) as u8],
                );
            } else {
                lemma_dec_digits_order(i / 10, j / 10);
                lemma_lex_less_append(
                    dec_digits(i / 10),
                    dec_digits(j / 10),
                    seq![(48 + i % 10) as u8],
                    seq![(48 + j % 10) as u8],
                );
            }
        }
    }
}

/// Up to index 9999 the padded digit strings order as the indices do.
pub proof fn lemma_padded_digits_order(i: nat, j: nat)
    requires
        i < j,
        j <= 9999,
    ensures
        lex_less(padded_digits(i), padded_digits(j)),
{
    lemma_dec_digits_len_bounds(i);
    lemma_dec_digits_len_bounds(j);
    lemma_dec_digits_len_mono(i, j);
    let di = dec_digits(i);
    let dj = dec_digits(j);
    let pi = padded_digits(i);
    let pj = padded_digits(j);
    if di.len() == dj.len() {
        lemma_dec_digits_order(i, j);
        if di.len() >= 4 {
            assert(pi == di && pj == dj);
        } else {
            lemma_lex_less_common_prefix(zeros((4 - di.len()) as nat), di, dj);
        }
    } else {
        // `i` is strictly shorter, so its padding is longer; at the first
        // position where `j`'s digits begin, `i` still shows a padding zero
        // while `j` shows a nonzero leading digit.
        let k = 4 - dj.len();
        assert(10 <= j) by {
            if j < 10 {
                assert(dj.len() == 1);
                assert(di.len() < 1);
            }
        }
        lemma_dec_digits_leading(j);
        assert(pi[k] == 48);
        assert(pj[k] == dj[0]);
        assert(forall|m: int| 0 <= m < k ==> pi[m] == 48 && pj[m] == 48);
        lemma_lex_less_first_diff(pi, pj, k);
    }
}

/// Shard names of indices up to 9999 sort lexicographically in index order.
pub proof fn lemma_shard_name_order(i: nat, j: nat)
    requires
        i < j,
        j <= 9999,
    ensures
        lex_less(shard_name_spec(i), shard_name_spec(j)),
{
    lemma_padded_digits_order(i, j);
    lemma_lex_less_common_prefix(shard_prefix(), padded_digits(i), padded_digits(j));
}

/// Every shard name carries the shard prefix.
pub proof fn lemma_shard_name_has_prefix(i: nat)
    ensures
        has_shard_prefix(shard_name_spec(i)),
{
    assert(shard_prefix() =~= shard_name_spec(i).subrange(0, 6));
}

/// Builds the filename of the shard of index `index`: the fixed prefix
/// followed by the decimal index, zero-padded to at least four digits.
pub fn shard_name(index: usize) -> (name: Vec<u8>)
    ensures
        name@ == shard_name_spec(index as nat),
{
    let mut digits: Vec<u8> = Vec::new();
    let mut cur: usize = index;
    proof {
        assert(digits@.reverse() =~= Seq::<u8>::empty());
        assert(dec_digits(index as nat) + Seq::<u8>::empty() =~= dec_digits(index as nat));
    }
    while cur >= 10
        invariant
            dec_digits(index as nat) == dec_digits(cur as nat) + digits@.reverse(),
        decreases cur,
    {
        let d: u8 = 48 + (cur % 10) as u8;
        let ghost before = digits@;
        digits.push(d);
        cur = cur / 10;
        proof {
            assert(digits@.reverse() =~= seq![d] + before.reverse());
            assert(dec_digits(cur as nat) + digits@.reverse() =~= (dec_digits(cur as nat)
                + seq![d]) + before.reverse());
        }
    }
    let d: u8 = 48 + (cur as u8);
    let ghost before = digits@;
    digits.push(d);
    proof {
        assert(digits@.reverse() =~= seq![d] + before.reverse());
        assert(dec_digits(cur as nat) =~= seq![d]);
        assert(dec_digits(index as nat) =~= digits@.reverse());
    }

    let mut name: Vec<u8> = Vec::new();
    name.push(115);
    name.push(104);
    name.push(97);
    name.push(114);
    name.push(100);
    name.push(95);
    proof {
        assert(name@ =~= shard_prefix());
        assert(name@ =~= shard_prefix() + zeros(0));
    }
    let target_pad: usize = if digits.len() >= 4 {
        0
    } else {
        4 - digits.len()
    };
    let mut p: usize = 0;
    while p < target_pad
        invariant
            p <= target_pad,
            name@ == shard_prefix() + zeros(p as nat),
        decreases target_pad - p,
    {
        name.push(48);
        p = p + 1;
        proof {
            assert(name@ =~= shard_prefix() + zeros(p as nat));
        }
    }
    let ghost padding = zeros(target_pad as nat);
    let ghost rev = digits@.reverse();
    proof {
        assert(name@ + rev.take(0) =~= name@);
    }
    let mut k: usize = digits.len();
    while k > 0
        invariant
            k <= digits.len(),
            rev == digits@.reverse(),
            name@ == (shard_prefix() + padding) + rev.take(digits.len() - k),
        decreases k,
    {
        k = k - 1;
        let ghost t = digits@.len() - (k + 1);
        proof {
            assert(rev[t] == digits@[k as int]);
        }
        let b = digits[k];
        name.push(b);
        proof {
            assert(rev.take(t + 1) =~= rev.take(t).push(rev[t]));
        }
    }
    proof {
        assert(rev.take(digits.len() as int) =~= rev);
        assert(rev == dec_digits(index as nat));
        if digits.len() >= 4 {
            lemma_dec_digits_len_bounds(index as nat);
            assert(padded_digits(index as nat) == dec_digits(index as nat));
            assert((shard_prefix() + zeros(0)) + rev =~= shard_prefix() + padded_digits(
                index as nat));
        } else {
            assert(padding =~= zeros((4 - dec_digits(index as nat).len()) as nat));
            assert((shard_prefix() + padding) + rev =~= shard_prefix() + (padding + rev));
            assert(padding + rev =~= padded_digits(index as nat));
        }
    }
    name
}

/// Tests whether a filename begins with the shard prefix.
pub fn has_shard_prefix_bytes(n: &Vec<u8>) -> (r: bool)
    ensures
        r == has_shard_prefix(n@),
{
    if n.len() < 6 {
        return false;
    }
    let ok = n[0] == 115 && n[1] == 104 && n[2] == 97 && n[3] == 114 && n[4] == 100 && n[5]
        == 95;
    proof {
        if ok {
            assert(shard_prefix() =~= n@.subrange(0, 6));
        } else {
            if has_shard_prefix(n@) {
                assert(shard_prefix()[0] == n@.subrange(0, 6)[0]);
                assert(shard_prefix()[1] == n@.subrange(0, 6)[1]);
                assert(shard_prefix()[2] == n@.subrange(0, 6)[2]);
                assert(shard_prefix()[3] == n@.subrange(0, 6)[3]);
                assert(shard_prefix()[4] == n@.subrange(0, 6)[4]);
                assert(shard_prefix()[5] == n@.subrange(0, 6)[5]);
            }
        }
    }
    ok
}

} // verus!
