//! The laws the library answers for: sharding and reassembly invert one
//! another, shard counts and sizes are exact, and reassembly does not depend
//! on the order in which a directory hands its entries out.

use vstd::prelude::*;
use crate::bytes::lex_less;
use crate::bytes::lemma_lex_less_asymmetric;
use crate::bytes::lemma_lex_less_transitive;
use crate::bytes::lemma_lex_less_connected;
use crate::names::shard_name_spec;
use crate::names::lemma_shard_name_order;
use crate::names::lemma_shard_name_has_prefix;
use crate::shard::chunks;
use crate::shard::chunk_count;
use crate::shard::lemma_chunk_sizes;
use crate::shard::shard_entries_spec;
use crate::reconstruct::is_shard_entry;
use crate::reconstruct::entry_le;
use crate::reconstruct::sorted_names;
use crate::reconstruct::distinct_names;
use crate::reconstruct::insert_sorted;
use crate::reconstruct::sort_entries_spec;
use crate::reconstruct::datas;
use crate::reconstruct::concat_all;
use crate::reconstruct::reconstruct_spec;

verus! {

proof fn lemma_entry_le_total(a: (Seq<u8>, Seq<u8>), b: (Seq<u8>, Seq<u8>))
    ensures
        entry_le(a, b) || entry_le(b, a),
{
    if lex_less(b.0, a.0) && lex_less(a.0, b.0) {
        lemma_lex_less_asymmetric(a.0, b.0);
    }
}

proof fn lemma_entry_le_trans(a: (Seq<u8>, Seq<u8>), b: (Seq<u8>, Seq<u8>), c: (Seq<u8>, Seq<u8>))
    requires
        entry_le(a, b),
        entry_le(b, c),
    ensures
        entry_le(a, c),
{
    if lex_less(c.0, a.0) {
        if a.0 == b.0 {
        } else {
            lemma_lex_less_connected(a.0, b.0);
            lemma_lex_less_transitive(c.0, a.0, b.0);
        }
    }
}

/// Inserting into a name-sorted sequence keeps it sorted, grows it by one,
/// and adds exactly the new entry to its multiset.
pub proof fn lemma_insert_sorted_ensures(e: (Seq<u8>, Seq<u8>), s: Seq<(Seq<u8>, Seq<u8>)>)
    requires
        sorted_names(s),
    ensures
        sorted_names(insert_sorted(e, s)),
        insert_sorted(e, s).to_multiset() == s.to_multiset().insert(e),
        insert_sorted(e, s).len() == s.len() + 1,
    decreases s.len(),
{
    broadcast use vstd::seq_lib::group_to_multiset_ensures;
    broadcast use vstd::multiset::group_multiset_axioms;

    let r = insert_sorted(e, s);
    if s.len() == 0 {
        assert(r =~= Seq::<(Seq<u8>, Seq<u8>)>::empty().push(e));
        assert(r.to_multiset() =~= s.to_multiset().insert(e));
    } else if entry_le(e, s[0]) {
        assert(r == seq![e] + s);
        vstd::seq_lib::lemma_multiset_commutative(seq![e], s);
        assert(seq![e] =~= Seq::<(Seq<u8>, Seq<u8>)>::empty().push(e));
        assert(r.to_multiset() =~= s.to_multiset().insert(e));
        assert forall|x: int, y: int| 0 <= x < y < r.len() implies entry_le(
            #[trigger] r[x],
            #[trigger] r[y],
        ) by {
            if x == 0 {
                assert(r[y] == s[y - 1]);
                if y > 1 {
                    assert(entry_le(s[0], s[y - 1]));
                    lemma_entry_le_trans(e, s[0], s[y - 1]);
                }
            } else {
                assert(r[x] == s[x - 1] && r[y] == s[y - 1]);
            }
        }
    } else {
        let rest = s.skip(1);
        assert forall|x: int, y: int| 0 <= x < y < rest.len() implies entry_le(
            #[trigger] rest[x],
            #[trigger] rest[y],
        ) by {
            assert(rest[x] == s[x + 1] && rest[y] == s[y + 1]);
        }
        lemma_insert_sorted_ensures(e, rest);
        let t = insert_sorted(e, rest);
        assert(r == seq![s[0]] + t);
        vstd::seq_lib::lemma_multiset_commutative(seq![s[0]], t);
        assert(s =~= seq![s[0]] + rest);
        vstd::seq_lib::lemma_multiset_commutative(seq![s[0]], rest);
        assert(seq![s[0]] =~= Seq::<(Seq<u8>, Seq<u8>)>::empty().push(s[0]));
        assert(r.to_multiset() =~= s.to_multiset().insert(e));
        lemma_entry_le_total(e, s[0]);
        assert forall|x: int, y: int| 0 <= x < y < r.len() implies entry_le(
            #[trigger] r[x],
            #[trigger] r[y],
        ) by {
            if x == 0 {
                let v = t[y - 1];
                assert(t.contains(v));
                assert(t.to_multiset().count(v) > 0);
                if v == e {
                    assert(entry_le(s[0], e));
                } else {
                    assert(rest.to_multiset().count(v) > 0);
                    assert(rest.contains(v));
                    let k = choose|k: int| 0 <= k < rest.len() && rest[k] == v;
                    assert(rest[k] == s[k + 1]);
                    assert(entry_le(s[0], s[k + 1]));
                }
            } else {
                assert(r[x] == t[x - 1] && r[y] == t[y - 1]);
            }
        }
    }
}

/// Sorting yields a name-sorted sequence with exactly the entries it was
/// given: a permutation, witnessed by multiset equality.
pub proof fn lemma_sort_entries_ensures(s: Seq<(Seq<u8>, Seq<u8>)>)
    ensures
        sorted_names(sort_entries_spec(s)),
        sort_entries_spec(s).to_multiset() == s.to_multiset(),
        sort_entries_spec(s).len() == s.len(),
    decreases s.len(),
{
    broadcast use vstd::seq_lib::group_to_multiset_ensures;
    broadcast use vstd::multiset::group_multiset_axioms;

    if s.len() > 0 {
        lemma_sort_entries_ensures(s.skip(1));
        lemma_insert_sorted_ensures(s[0], sort_entries_spec(s.skip(1)));
        assert(s =~= seq![s[0]] + s.skip(1));
        vstd::seq_lib::lemma_multiset_commutative(seq![s[0]], s.skip(1));
        assert(seq![s[0]] =~= Seq::<(Seq<u8>, Seq<u8>)>::empty().push(s[0]));
        assert(sort_entries_spec(s).to_multiset() =~= s.to_multiset());
    }
}

/// Sorting a sequence that already stands in ascending name order leaves it
/// exactly as it is.
pub proof fn lemma_sort_sorted_identity(s: Seq<(Seq<u8>, Seq<u8>)>)
    requires
        sorted_names(s),
    ensures
        sort_entries_spec(s) == s,
    decreases s.len(),
{
    if s.len() > 0 {
        let rest = s.skip(1);
        assert forall|x: int, y: int| 0 <= x < y < rest.len() implies entry_le(
            #[trigger] rest[x],
            #[trigger] rest[y],
        ) by {
            assert(rest[x] == s[x + 1] && rest[y] == s[y + 1]);
        }
        lemma_sort_sorted_identity(rest);
        if s.len() == 1 {
            assert(insert_sorted(s[0], rest) =~= s);
        } else {
            assert(rest[0] == s[1]);
            assert(entry_le(s[0], rest[0]));
            assert(insert_sorted(s[0], rest) == seq![s[0]] + rest);
            assert(seq![s[0]] + rest =~= s);
        }
    }
}

/// Filtering keeps a sequence whole when every element satisfies the
/// predicate.
pub proof fn lemma_filter_keeps_all(
    s: Seq<(Seq<u8>, Seq<u8>)>,
    pred: spec_fn((Seq<u8>, Seq<u8>)) -> bool,
)
    requires
        forall|i: int| 0 <= i < s.len() ==> pred(#[trigger] s[i]),
    ensures
        s.filter(pred) == s,
    decreases s.len(),
{
    reveal(Seq::filter);
    if s.len() == 0 {
        assert(s.filter(pred) =~= s);
    } else {
        assert forall|i: int| 0 <= i < s.drop_last().len() implies pred(
            #[trigger] s.drop_last()[i],
        ) by {
            assert(s.drop_last()[i] == s[i]);
        }
        lemma_filter_keeps_all(s.drop_last(), pred);
        assert(pred(s.last()));
        assert(s.drop_last().push(s.last()) =~= s);
    }
}

/// The blocks of a sequence, concatenated back in order, are the sequence.
pub proof fn lemma_chunks_concat(data: Seq<u8>, size: nat)
    requires
        1 <= size,
    ensures
        concat_all(chunks(data, size)) == data,
    decreases data.len(),
{
    if data.len() == 0 {
        assert(concat_all(chunks(data, size)) =~= data);
    } else if data.len() <= size {
        let cs = chunks(data, size);
        assert(cs == seq![data]);
        assert(cs.skip(1) =~= Seq::<Seq<u8>>::empty());
        assert(concat_all(cs) == data + concat_all(Seq::<Seq<u8>>::empty()));
        assert(data + Seq::<u8>::empty() =~= data);
    } else {
        lemma_chunks_concat(data.skip(size as int), size);
        let cs = chunks(data, size);
        assert(cs == seq![data.take(size as int)] + chunks(data.skip(size as int), size));
        assert(cs[0] == data.take(size as int));
        assert(cs.skip(1) =~= chunks(data.skip(size as int), size));
        assert(concat_all(cs) == data.take(size as int) + data.skip(size as int));
        assert(data.take(size as int) + data.skip(size as int) =~= data);
    }
}

/// Round trip: reassembling exactly what the sharder produced from `data`
/// yields `data` again, for any block size of at least one byte, as long as
/// the shard count stays within the four-digit name space (at most 10000
/// shards, indices 0 through 9999). Past that boundary the names no longer
/// sort in index order and the guarantee is forfeit.
pub proof fn lemma_round_trip(data: Seq<u8>, size: nat)
    requires
        1 <= size,
        chunk_count(data.len(), size) <= 10000,
    ensures
        reconstruct_spec(shard_entries_spec(data, size)) == data,
{
    let es = shard_entries_spec(data, size);
    let pred = |e: (Seq<u8>, Seq<u8>)| is_shard_entry(e);
    lemma_chunk_sizes(data, size);
    assert forall|i: int| 0 <= i < es.len() implies pred(#[trigger] es[i]) by {
        lemma_shard_name_has_prefix(i as nat);
    }
    lemma_filter_keeps_all(es, pred);
    assert forall|x: int, y: int| 0 <= x < y < es.len() implies entry_le(
        #[trigger] es[x],
        #[trigger] es[y],
    ) by {
        lemma_shard_name_order(x as nat, y as nat);
        lemma_lex_less_asymmetric(shard_name_spec(x as nat), shard_name_spec(y as nat));
    }
    lemma_sort_sorted_identity(es);
    assert(datas(es) =~= chunks(data, size));
    lemma_chunks_concat(data, size);
}

/// An empty input shards to no entries at all.
pub proof fn lemma_shard_empty(size: nat)
    ensures
        shard_entries_spec(Seq::empty(), size).len() == 0,
        chunk_count(0, size) == 0,
{
    if size >= 1 {
        vstd::arithmetic::div_mod::lemma_basic_div((size - 1) as int, size as int);
    }
}

/// A listing in which no name carries the shard prefix reassembles to an
/// empty file; so, in particular, does an empty listing.
pub proof fn lemma_reconstruct_no_shards(es: Seq<(Seq<u8>, Seq<u8>)>)
    requires
        forall|i: int| 0 <= i < es.len() ==> !is_shard_entry(#[trigger] es[i]),
    ensures
        reconstruct_spec(es) == Seq::<u8>::empty(),
{
    let pred = |e: (Seq<u8>, Seq<u8>)| is_shard_entry(e);
    es.lemma_all_neg_filter_empty(pred);
    let f = es.filter(pred);
    assert(f.len() == 0);
    assert(sort_entries_spec(f) == f);
    assert(datas(f).len() == 0);
    assert(concat_all(datas(f)) =~= Seq::<u8>::empty());
}

/// Sequences holding the same entries filter to the same multiset.
proof fn lemma_filter_multiset(
    a: Seq<(Seq<u8>, Seq<u8>)>,
    b: Seq<(Seq<u8>, Seq<u8>)>,
    pred: spec_fn((Seq<u8>, Seq<u8>)) -> bool,
)
    requires
        a.to_multiset() == b.to_multiset(),
    ensures
        a.filter(pred).to_multiset() == b.filter(pred).to_multiset(),
    decreases a.len(),
{
    broadcast use vstd::seq_lib::group_to_multiset_ensures;
    broadcast use vstd::multiset::group_multiset_axioms;

    reveal(Seq::filter);
    if a.len() == 0 {
        assert(b.to_multiset().len() == 0);
        assert(a.filter(pred) =~= b.filter(pred));
    } else {
        let v = a.last();
        let a2 = a.drop_last();
        assert(a.contains(v));
        assert(a.to_multiset().count(v) > 0);
        assert(b.to_multiset().count(v) > 0);
        assert(b.contains(v));
        let k = choose|k: int| 0 <= k < b.len() && b[k] == v;
        let b2 = b.remove(k);
        assert(b2.to_multiset() =~= b.to_multiset().remove(v));
        assert(a2 =~= a.remove(a.len() - 1));
        assert(a2.to_multiset() =~= a.to_multiset().remove(v));
        lemma_filter_multiset(a2, b2, pred);
        // the two sides of `b` around position `k`
        let l = b.take(k);
        let r = b.skip(k + 1);
        assert(b =~= l + (seq![v] + r));
        Seq::filter_distributes_over_add(l, seq![v] + r, pred);
        Seq::filter_distributes_over_add(seq![v], r, pred);
        assert(b2 =~= l + r);
        Seq::filter_distributes_over_add(l, r, pred);
        assert(seq![v].drop_last() =~= Seq::<(Seq<u8>, Seq<u8>)>::empty());
        assert(seq![v].len() == 1 && seq![v].last() == v);
        assert(Seq::<(Seq<u8>, Seq<u8>)>::empty().filter(pred) =~= Seq::<(Seq<u8>, Seq<u8>)>::empty());
        assert(seq![v].drop_last().filter(pred) == Seq::<(Seq<u8>, Seq<u8>)>::empty().filter(pred));
        assert(seq![v].filter(pred) == if pred(v) {
            Seq::<(Seq<u8>, Seq<u8>)>::empty().push(v)
        } else {
            Seq::<(Seq<u8>, Seq<u8>)>::empty()
        });
        vstd::seq_lib::lemma_multiset_commutative(l.filter(pred), seq![v].filter(pred) + r.filter(pred));
        vstd::seq_lib::lemma_multiset_commutative(seq![v].filter(pred), r.filter(pred));
        vstd::seq_lib::lemma_multiset_commutative(l.filter(pred), r.filter(pred));
        if pred(v) {
            assert(b.filter(pred).to_multiset() =~= b2.filter(pred).to_multiset().insert(v));
            assert(a.filter(pred).to_multiset() =~= a2.filter(pred).to_multiset().insert(v));
        } else {
            assert(b.filter(pred).to_multiset() =~= b2.filter(pred).to_multiset());
            assert(a.filter(pred) == a2.filter(pred));
        }
        assert(a.filter(pred).to_multiset() =~= b.filter(pred).to_multiset());
    }
}

/// Two name-sorted sequences with the same entries and no repeated name are
/// one and the same sequence.
pub proof fn lemma_sorted_unique_names(x: Seq<(Seq<u8>, Seq<u8>)>, y: Seq<(Seq<u8>, Seq<u8>)>)
    requires
        sorted_names(x),
        sorted_names(y),
        distinct_names(x),
        x.to_multiset() == y.to_multiset(),
    ensures
        x == y,
    decreases x.len(),
{
    broadcast use vstd::seq_lib::group_to_multiset_ensures;
    broadcast use vstd::multiset::group_multiset_axioms;

    if x.len() == 0 {
        assert(y.to_multiset().len() == 0);
        assert(x =~= y);
    } else {
        assert(y.to_multiset().len() == x.len());
        assert(x.contains(x[0]));
        assert(x.to_multiset().count(x[0]) > 0);
        assert(y.to_multiset().count(x[0]) > 0);
        assert(y.contains(x[0]));
        let k = choose|k: int| 0 <= k < y.len() && y[k] == x[0];
        assert(y.contains(y[0]));
        assert(y.to_multiset().count(y[0]) > 0);
        assert(x.to_multiset().count(y[0]) > 0);
        assert(x.contains(y[0]));
        let i = choose|i: int| 0 <= i < x.len() && x[i] == y[0];
        if k != 0 && i != 0 {
            assert(entry_le(y[0], y[k]));
            assert(entry_le(x[0], x[i]));
            assert(!lex_less(x[0].0, y[0].0) && !lex_less(y[0].0, x[0].0));
            if x[0].0 != y[0].0 {
                lemma_lex_less_connected(x[0].0, y[0].0);
            }
            assert(x[i].0 == x[0].0);
            assert(false);
        }
        assert(x[0] == y[0]);
        let xt = x.skip(1);
        let yt = y.skip(1);
        assert(xt =~= x.remove(0));
        assert(yt =~= y.remove(0));
        assert(xt.to_multiset() =~= x.to_multiset().remove(x[0]));
        assert(yt.to_multiset() =~= y.to_multiset().remove(y[0]));
        assert forall|s: int, t: int| 0 <= s < t < xt.len() implies entry_le(
            #[trigger] xt[s],
            #[trigger] xt[t],
        ) && xt[s].0 != xt[t].0 by {
            assert(xt[s] == x[s + 1] && xt[t] == x[t + 1]);
        }
        assert forall|s: int, t: int| 0 <= s < t < yt.len() implies entry_le(
            #[trigger] yt[s],
            #[trigger] yt[t],
        ) by {
            assert(yt[s] == y[s + 1] && yt[t] == y[t + 1]);
        }
        lemma_sorted_unique_names(xt, yt);
        assert forall|m: int| 0 <= m < x.len() implies x[m] == y[m] by {
            if m > 0 {
                assert(x[m] == xt[m - 1] && y[m] == yt[m - 1]);
            }
        }
        assert(x =~= y);
    }
}

/// Whether any name repeats is a property of the entries alone, not of
/// their order.
proof fn lemma_distinct_names_permutation(a: Seq<(Seq<u8>, Seq<u8>)>, b: Seq<(Seq<u8>, Seq<u8>)>)
    requires
        a.to_multiset() == b.to_multiset(),
        distinct_names(a),
    ensures
        distinct_names(b),
{
    broadcast use vstd::seq_lib::group_to_multiset_ensures;
    broadcast use vstd::multiset::group_multiset_axioms;

    assert forall|i: int, j: int| 0 <= i < j < a.len() implies a[i] != a[j] by {
        assert(a[i].0 != a[j].0);
    }
    assert(a.no_duplicates());
    a.lemma_multiset_has_no_duplicates();
    b.lemma_multiset_has_no_duplicates_conv();
    assert forall|i: int, j: int| 0 <= i < j < b.len() implies (#[trigger] b[i]).0 != (
    #[trigger] b[j]).0 by {
        if b[i].0 == b[j].0 {
            assert(b[i] != b[j]);
            assert(b.contains(b[i]) && b.contains(b[j]));
            assert(b.to_multiset().count(b[i]) > 0 && b.to_multiset().count(b[j]) > 0);
            assert(a.to_multiset().count(b[i]) > 0 && a.to_multiset().count(b[j]) > 0);
            assert(a.contains(b[i]) && a.contains(b[j]));
            let p = choose|p: int| 0 <= p < a.len() && a[p] == b[i];
            let q = choose|q: int| 0 <= q < a.len() && a[q] == b[j];
            assert(p != q);
            if p < q {
                assert(a[p].0 != a[q].0);
            } else {
                assert(a[q].0 != a[p].0);
            }
        }
    }
}

/// Reassembly does not depend on the order in which the directory hands its
/// entries out: two listings of the same files (no filename repeated, as in
/// any directory) yield the same bytes.
pub proof fn lemma_reconstruct_order_independent(
    es1: Seq<(Seq<u8>, Seq<u8>)>,
    es2: Seq<(Seq<u8>, Seq<u8>)>,
)
    requires
        es1.to_multiset() == es2.to_multiset(),
        distinct_names(es1.filter(|e: (Seq<u8>, Seq<u8>)| is_shard_entry(e))),
    ensures
        reconstruct_spec(es1) == reconstruct_spec(es2),
{
    let pred = |e: (Seq<u8>, Seq<u8>)| is_shard_entry(e);
    lemma_filter_multiset(es1, es2, pred);
    let f1 = es1.filter(pred);
    let f2 = es2.filter(pred);
    lemma_sort_entries_ensures(f1);
    lemma_sort_entries_ensures(f2);
    lemma_distinct_names_permutation(f1, sort_entries_spec(f1));
    lemma_sorted_unique_names(sort_entries_spec(f1), sort_entries_spec(f2));
}

/// Reassembly is a function of the listing alone: two runs over the same
/// entries yield the same bytes.
pub proof fn lemma_reconstruct_deterministic(
    es: Seq<(Seq<u8>, Seq<u8>)>,
    out1: Seq<u8>,
    out2: Seq<u8>,
)
    requires
        out1 == reconstruct_spec(es),
        out2 == reconstruct_spec(es),
    ensures
        out1 == out2,
{
}

} // verus!
