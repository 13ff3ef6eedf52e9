//! Reassembling a file from a directory listing: keep the entries whose
//! names carry the shard prefix, sort them lexicographically by name, and
//! concatenate their contents in that order.

use vstd::prelude::*;
use crate::bytes::lex_le;
use crate::bytes::lex_less_bytes;
use crate::entry::ShardEntry;
use crate::entry::entries_model;
use crate::names::has_shard_prefix;
use crate::names::has_shard_prefix_bytes;

verus! {

/// An entry that reassembly keeps: its name carries the shard prefix.
pub open spec fn is_shard_entry(e: (Seq<u8>, Seq<u8>)) -> bool {
    has_shard_prefix(e.0)
}

/// Entries are ordered by their names alone; contents play no part.
pub open spec fn entry_le(a: (Seq<u8>, Seq<u8>), b: (Seq<u8>, Seq<u8>)) -> bool {
    lex_le(a.0, b.0)
}

/// A sequence of entries in ascending name order.
pub open spec fn sorted_names(s: Seq<(Seq<u8>, Seq<u8>)>) -> bool {
    forall|x: int, y: int| 0 <= x < y < s.len() ==> entry_le(#[trigger] s[x], #[trigger] s[y])
}

/// No two entries share a name, as holds of any directory listing.
pub open spec fn distinct_names(s: Seq<(Seq<u8>, Seq<u8>)>) -> bool {
    forall|x: int, y: int| 0 <= x < y < s.len() ==> (#[trigger] s[x]).0 != (#[trigger] s[y]).0
}

/// Where an entry comes to rest in an already sorted sequence: before the
/// first entry whose name is not smaller than its own.
pub open spec fn insert_sorted(
    e: (Seq<u8>, Seq<u8>),
    s: Seq<(Seq<u8>, Seq<u8>)>,
) -> Seq<(Seq<u8>, Seq<u8>)>
    decreases s.len(),
{
    if s.len() == 0 {
        seq![e]
    } else if entry_le(e, s[0]) {
        seq![e] + s
    } else {
        seq![s[0]] + insert_sorted(e, s.skip(1))
    }
}

/// The ascending-name rearrangement of a sequence of entries: each entry in
/// turn inserted into the sorted rest.
pub open spec fn sort_entries_spec(s: Seq<(Seq<u8>, Seq<u8>)>) -> Seq<(Seq<u8>, Seq<u8>)>
    decreases s.len(),
{
    if s.len() == 0 {
        s
    } else {
        insert_sorted(s[0], sort_entries_spec(s.skip(1)))
    }
}

/// The data blocks of a sequence of entries, names dropped.
pub open spec fn datas(s: Seq<(Seq<u8>, Seq<u8>)>) -> Seq<Seq<u8>> {
    s.map_values(|e: (Seq<u8>, Seq<u8>)| e.1)
}

/// The concatenation of a sequence of byte blocks, in order.
pub open spec fn concat_all(ss: Seq<Seq<u8>>) -> Seq<u8>
    decreases ss.len(),
{
    if ss.len() == 0 {
        Seq::empty()
    } else {
        ss[0] + concat_all(ss.skip(1))
    }
}

/// What reassembly yields from a directory listing: the contents of the
/// entries that carry the shard prefix, concatenated in ascending name
/// order.
pub open spec fn reconstruct_spec(es: Seq<(Seq<u8>, Seq<u8>)>) -> Seq<u8> {
    concat_all(datas(sort_entries_spec(es.filter(|e: (Seq<u8>, Seq<u8>)| is_shard_entry(e)))))
}

pub proof fn lemma_concat_all_push(ss: Seq<Seq<u8>>, x: Seq<u8>)
    ensures
        concat_all(ss.push(x)) == concat_all(ss) + x,
    decreases ss.len(),
{
    if ss.len() == 0 {
        assert(ss.push(x).skip(1) =~= Seq::<Seq<u8>>::empty());
        assert(concat_all(ss.push(x)) == x + concat_all(Seq::<Seq<u8>>::empty()));
        assert(x + Seq::<u8>::empty() =~= x);
        assert(concat_all(ss) + x =~= x);
    } else {
        assert(ss.push(x).skip(1) =~= ss.skip(1).push(x));
        lemma_concat_all_push(ss.skip(1), x);
        assert(concat_all(ss.push(x)) == ss[0] + (concat_all(ss.skip(1)) + x));
        assert(ss[0] + (concat_all(ss.skip(1)) + x) =~= (ss[0] + concat_all(ss.skip(1))) + x);
    }
}

/// Inserting before the first entry whose name is not smaller lands the new
/// entry exactly at position `pos`.
pub proof fn lemma_insert_sorted_at(
    e: (Seq<u8>, Seq<u8>),
    m: Seq<(Seq<u8>, Seq<u8>)>,
    pos: int,
)
    requires
        0 <= pos <= m.len(),
        forall|j: int| 0 <= j < pos ==> !entry_le(e, #[trigger] m[j]),
        pos < m.len() ==> entry_le(e, m[pos]),
    ensures
        insert_sorted(e, m) == m.take(pos) + seq![e] + m.skip(pos),
    decreases pos,
{
    if pos == 0 {
        if m.len() == 0 {
            assert(m.take(0) + seq![e] + m.skip(0) =~= seq![e]);
        } else {
            assert(m.take(0) + seq![e] + m.skip(0) =~= seq![e] + m);
        }
    } else {
        assert(!entry_le(e, m[0]));
        assert forall|j: int| 0 <= j < pos - 1 implies !entry_le(e, #[trigger] m.skip(1)[j]) by {
            assert(m.skip(1)[j] == m[j + 1]);
        }
        lemma_insert_sorted_at(e, m.skip(1), pos - 1);
        assert(insert_sorted(e, m) == seq![m[0]] + (m.skip(1).take(pos - 1) + seq![e] + m.skip(
            1,
        ).skip(pos - 1)));
        assert(seq![m[0]] + (m.skip(1).take(pos - 1) + seq![e] + m.skip(1).skip(pos - 1)) =~= m.take(
            pos,
        ) + seq![e] + m.skip(pos));
    }
}

/// Keeps exactly the entries whose names carry the shard prefix, in their
/// given order.
pub fn filter_shards(entries: Vec<ShardEntry>) -> (kept: Vec<ShardEntry>)
    ensures
        entries_model(kept@) == entries_model(entries@).filter(
            |e: (Seq<u8>, Seq<u8>)| is_shard_entry(e),
        ),
{
    let ghost m0 = entries_model(entries@);
    let ghost pred = |e: (Seq<u8>, Seq<u8>)| is_shard_entry(e);
    let mut rest = entries;
    let mut kept: Vec<ShardEntry> = Vec::new();
    proof {
        reveal(Seq::filter);
        assert(m0.take(0) =~= Seq::<(Seq<u8>, Seq<u8>)>::empty());
        assert(entries_model(kept@) =~= m0.take(0).filter(pred));
        assert(entries_model(rest@) =~= m0.skip(0));
    }
    let ghost orig_len = m0.len();
    while rest.len() > 0
        invariant
            rest@.len() <= orig_len,
            orig_len == m0.len(),
            pred == (|e: (Seq<u8>, Seq<u8>)| is_shard_entry(e)),
            entries_model(rest@) == m0.skip(orig_len - rest@.len()),
            entries_model(kept@) == m0.take(orig_len - rest@.len()).filter(pred),
        decreases rest@.len(),
    {
        let ghost done = orig_len - rest@.len();
        let ghost rest_before = rest@;
        let e = rest.remove(0);
        proof {
            assert(e@ == entries_model(rest_before)[0]);
            assert(e@ == m0.skip(done)[0]);
            assert(rest@ =~= rest_before.skip(1));
            assert forall|j: int| 0 <= j < rest@.len() implies entries_model(rest@)[j] == m0.skip(
                done + 1,
            )[j] by {
                assert(entries_model(rest@)[j] == rest_before[j + 1]@);
                assert(entries_model(rest_before)[j + 1] == rest_before[j + 1]@);
                assert(m0.skip(done)[j + 1] == m0[done + 1 + j]);
            }
            assert(entries_model(rest@) =~= m0.skip(done + 1));
        }
        let keep = has_shard_prefix_bytes(&e.name);
        let ghost kept_before = entries_model(kept@);
        if keep {
            kept.push(e);
            proof {
                assert(entries_model(kept@) =~= kept_before.push(m0[done]));
            }
        }
        proof {
            reveal(Seq::filter);
            let t = m0.take(done + 1);
            assert(t.drop_last() =~= m0.take(done));
            assert(t.last() == m0[done]);
            assert(m0.skip(done)[0] == m0[done]);
            assert(t.last() == e@);
            assert(e@.0 == e.name@);
            assert(pred(e@) == is_shard_entry(e@));
            assert(pred(t.last()) == keep);
            if keep {
                assert(t.filter(pred) == t.drop_last().filter(pred).push(t.last()));
            } else {
                assert(t.filter(pred) == t.drop_last().filter(pred));
            }
            assert(entries_model(kept@) =~= t.filter(pred));
        }
    }
    proof {
        assert(m0.take(orig_len as int) =~= m0);
    }
    kept
}

/// Places one entry into a vector kept in ascending name order, before the
/// first entry whose name is not smaller.
fn insert_entry(sorted: &mut Vec<ShardEntry>, e: ShardEntry)
    ensures
        entries_model(final(sorted)@) == insert_sorted(e@, entries_model(old(sorted)@)),
{
    let ghost m = entries_model(sorted@);
    let mut pos: usize = 0;
    loop
        invariant_except_break
            pos <= sorted@.len(),
            m == entries_model(sorted@),
            forall|j: int| 0 <= j < pos ==> !entry_le(e@, #[trigger] m[j]),
        ensures
            pos <= sorted@.len(),
            m == entries_model(sorted@),
            forall|j: int| 0 <= j < pos ==> !entry_le(e@, #[trigger] m[j]),
            pos < m.len() ==> entry_le(e@, m[pos as int]),
        decreases sorted@.len() - pos,
    {
        if pos == sorted.len() {
            break ;
        }
        if !lex_less_bytes(&sorted[pos].name, &e.name) {
            break ;
        }
        pos = pos + 1;
    }
    let ghost before = sorted@;
    sorted.insert(pos, e);
    proof {
        lemma_insert_sorted_at(e@, m, pos as int);
        assert(entries_model(sorted@) =~= m.take(pos as int) + seq![e@] + m.skip(pos as int));
    }
}

/// Rearranges the entries into ascending name order.
pub fn sort_entries(entries: Vec<ShardEntry>) -> (sorted: Vec<ShardEntry>)
    ensures
        entries_model(sorted@) == sort_entries_spec(entries_model(entries@)),
{
    let ghost m0 = entries_model(entries@);
    let mut rest = entries;
    let mut sorted: Vec<ShardEntry> = Vec::new();
    proof {
        assert(entries_model(rest@) =~= m0.take(m0.len() as int));
        assert(m0.take(m0.len() as int) =~= m0);
        assert(m0.skip(m0.len() as int) =~= Seq::<(Seq<u8>, Seq<u8>)>::empty());
        assert(entries_model(sorted@) =~= sort_entries_spec(m0.skip(m0.len() as int)));
    }
    while rest.len() > 0
        invariant
            rest@.len() <= m0.len(),
            entries_model(rest@) == m0.take(rest@.len() as int),
            entries_model(sorted@) == sort_entries_spec(m0.skip(rest@.len() as int)),
        decreases rest@.len(),
    {
        let ghost n = rest@.len() as int;
        let ghost rest_before = rest@;
        let e = rest.pop().unwrap();
        proof {
            assert(e@ == entries_model(rest_before)[n - 1]);
            assert(e@ == m0.take(n)[n - 1]);
            assert(rest@ =~= rest_before.take(n - 1));
            assert forall|j: int| 0 <= j < rest@.len() implies entries_model(rest@)[j] == m0.take(
                n - 1,
            )[j] by {
                assert(entries_model(rest@)[j] == rest_before[j]@);
                assert(entries_model(rest_before)[j] == rest_before[j]@);
            }
            assert(entries_model(rest@) =~= m0.take(n - 1));
            assert(m0.skip(n - 1).skip(1) =~= m0.skip(n));
            assert(m0.skip(n - 1)[0] == m0[n - 1]);
        }
        insert_entry(&mut sorted, e);
        proof {
            assert(entries_model(sorted@) == insert_sorted(
                m0.skip(n - 1)[0],
                sort_entries_spec(m0.skip(n - 1).skip(1)),
            ));
            assert(entries_model(sorted@) == sort_entries_spec(m0.skip(n - 1)));
        }
    }
    proof {
        assert(m0.skip(0) =~= m0);
    }
    sorted
}

/// Concatenates the entries' contents in their given order.
pub fn concat_entries(entries: &Vec<ShardEntry>) -> (out: Vec<u8>)
    ensures
        out@ == concat_all(datas(entries_model(entries@))),
{
    let ghost ds = datas(entries_model(entries@));
    let mut out: Vec<u8> = Vec::new();
    proof {
        assert(ds.take(0) =~= Seq::<Seq<u8>>::empty());
        assert(out@ =~= concat_all(ds.take(0)));
    }
    let mut idx: usize = 0;
    while idx < entries.len()
        invariant
            idx <= entries@.len(),
            ds == datas(entries_model(entries@)),
            entries@.len() == ds.len(),
            out@ == concat_all(ds.take(idx as int)),
        decreases entries@.len() - idx,
    {
        let ghost base = out@;
        let dlen = entries[idx].data.len();
        proof {
            assert(ds[idx as int] == entries@[idx as int]@.1);
        }
        let mut j: usize = 0;
        while j < dlen
            invariant
                j <= dlen,
                idx < entries@.len(),
                dlen == entries@[idx as int].data@.len(),
                out@ == base + entries@[idx as int].data@.take(j as int),
            decreases dlen - j,
        {
            let b = entries[idx].data[j];
            out.push(b);
            j = j + 1;
            proof {
                assert(entries@[idx as int].data@.take(j as int) =~= entries@[idx as int].data@.take(
                    j - 1,
                ).push(b));
                assert(out@ =~= base + entries@[idx as int].data@.take(j as int));
            }
        }
        proof {
            assert(entries@[idx as int].data@.take(dlen as int) =~= entries@[idx as int].data@);
            lemma_concat_all_push(ds.take(idx as int), ds[idx as int]);
            assert(ds.take(idx + 1) =~= ds.take(idx as int).push(ds[idx as int]));
            assert(out@ =~= concat_all(ds.take(idx + 1)));
        }
        idx = idx + 1;
    }
    proof {
        assert(ds.take(ds.len() as int) =~= ds);
    }
    out
}

/// Reassembles a file from a directory listing: the entries whose names
/// carry the shard prefix contribute their contents, in ascending
/// lexicographic name order; everything else is ignored. An empty listing,
/// or one with no matching names, yields an empty file.
pub fn reconstruct(entries: Vec<ShardEntry>) -> (out: Vec<u8>)
    ensures
        out@ == reconstruct_spec(entries_model(entries@)),
{
    let ghost m0 = entries_model(entries@);
    let kept = filter_shards(entries);
    let sorted = sort_entries(kept);
    concat_entries(&sorted)
}

} // verus!
