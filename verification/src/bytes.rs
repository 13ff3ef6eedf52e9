//! Lexicographic (byte-wise) ordering of byte sequences, the order in which
//! shard filenames are compared during reassembly.

use vstd::prelude::*;

verus! {

/// Strict lexicographic order on byte sequences: `a` comes before `b` when,
/// at the first position where they differ, `a` holds the smaller byte, or
/// when `a` is a proper prefix of `b`.
pub open spec fn lex_less(a: Seq<u8>, b: Seq<u8>) -> bool
    decreases a.len(),
{
    if b.len() == 0 {
        false
    } else if a.len() == 0 {
        true
    } else if a[0] < b[0] {
        true
    } else if a[0] > b[0] {
        false
    } else {
        lex_less(a.skip(1), b.skip(1))
    }
}

/// Non-strict companion of `lex_less`.
pub open spec fn lex_le(a: Seq<u8>, b: Seq<u8>) -> bool {
    !lex_less(b, a)
}

pub proof fn lemma_lex_less_irreflexive(a: Seq<u8>)
    ensures
        !lex_less(a, a),
    decreases a.len(),
{
    if a.len() > 0 {
        lemma_lex_less_irreflexive(a.skip(1));
    }
}

pub proof fn lemma_lex_less_transitive(a: Seq<u8>, b: Seq<u8>, c: Seq<u8>)
    requires
        lex_less(a, b),
        lex_less(b, c),
    ensures
        lex_less(a, c),
    decreases a.len(),
{
    if a.len() == 0 {
    } else if a[0] < b[0] {
        if b[0] == c[0] {
            assert(b.skip(1).len() >= 0);
        }
    } else {
        if a[0] == b[0] && b[0] == c[0] {
            lemma_lex_less_transitive(a.skip(1), b.skip(1), c.skip(1));
        }
    }
}

pub proof fn lemma_lex_less_asymmetric(a: Seq<u8>, b: Seq<u8>)
    requires
        lex_less(a, b),
    ensures
        !lex_less(b, a),
{
    if lex_less(b, a) {
        lemma_lex_less_transitive(a, b, a);
        lemma_lex_less_irreflexive(a);
    }
}

pub proof fn lemma_lex_less_connected(a: Seq<u8>, b: Seq<u8>)
    requires
        a != b,
    ensures
        lex_less(a, b) || lex_less(b, a),
    decreases a.len(),
{
    if a.len() == 0 || b.len() == 0 {
        assert(a =~= b || a.len() > 0 || b.len() > 0);
    } else if a[0] == b[0] {
        if a.skip(1) == b.skip(1) {
            assert(a.skip(1).len() == a.len() - 1);
            assert(b.skip(1).len() == b.len() - 1);
            assert(a.len() == b.len());
            assert forall|m: int| 0 <= m < a.len() implies a[m] == b[m] by {
                if m > 0 {
                    assert(a[m] == a.skip(1)[m - 1]);
                    assert(b[m] == b.skip(1)[m - 1]);
                }
            }
            assert(a =~= b);
        } else {
            lemma_lex_less_connected(a.skip(1), b.skip(1));
        }
    }
}

/// Prepending one common prefix to both sides leaves the order unchanged.
pub proof fn lemma_lex_less_common_prefix(p: Seq<u8>, a: Seq<u8>, b: Seq<u8>)
    ensures
        lex_less(p + a, p + b) == lex_less(a, b),
    decreases p.len(),
{
    if p.len() == 0 {
        assert(p + a =~= a);
        assert(p + b =~= b);
    } else {
        assert((p + a).skip(1) =~= p.skip(1) + a);
        assert((p + b).skip(1) =~= p.skip(1) + b);
        lemma_lex_less_common_prefix(p.skip(1), a, b);
    }
}

/// Appending anything to two equally long, strictly ordered sequences keeps
/// them strictly ordered: the deciding position lies within the front parts.
pub proof fn lemma_lex_less_append(a: Seq<u8>, b: Seq<u8>, s: Seq<u8>, t: Seq<u8>)
    requires
        lex_less(a, b),
        a.len() == b.len(),
    ensures
        lex_less(a + s, b + t),
    decreases a.len(),
{
    if a.len() == 0 {
    } else if a[0] == b[0] {
        assert((a + s).skip(1) =~= a.skip(1) + s);
        assert((b + t).skip(1) =~= b.skip(1) + t);
        lemma_lex_less_append(a.skip(1), b.skip(1), s, t);
    }
}

/// Two sequences whose first disagreement, at position `k`, favours `a`
/// stand in strict lexicographic order.
pub proof fn lemma_lex_less_first_diff(a: Seq<u8>, b: Seq<u8>, k: int)
    requires
        0 <= k < a.len(),
        k < b.len(),
        forall|m: int| 0 <= m < k ==> a[m] == b[m],
        a[k] < b[k],
    ensures
        lex_less(a, b),
    decreases k,
{
    if k > 0 {
        lemma_lex_less_first_diff(a.skip(1), b.skip(1), k - 1);
    }
}

/// Decides the lexicographic order of two byte vectors.
pub fn lex_less_bytes(a: &Vec<u8>, b: &Vec<u8>) -> (r: bool)
    ensures
        r == lex_less(a@, b@),
{
    let mut i: usize = 0;
    proof {
        assert(a@.skip(0) =~= a@);
        assert(b@.skip(0) =~= b@);
    }
    while i < a.len() && i < b.len() && a[i] == b[i]
        invariant
            i <= a.len(),
            i <= b.len(),
            lex_less(a@, b@) == lex_less(a@.skip(i as int), b@.skip(i as int)),
        decreases a.len() - i,
    {
        proof {
            assert(a@.skip(i as int).skip(1) =~= a@.skip(i as int + 1));
            assert(b@.skip(i as int).skip(1) =~= b@.skip(i as int + 1));
        }
        i = i + 1;
    }
    if i == b.len() {
        false
    } else if i == a.len() {
        true
    } else {
        a[i] < b[i]
    }
}

} // verus!
