//! Cutting a byte sequence into fixed-size blocks, each destined for its own
//! numbered shard file.

use vstd::prelude::*;
use crate::entry::ShardEntry;
use crate::entry::entries_model;
use crate::names::shard_name_spec;
use crate::names::shard_name;

verus! {

/// The blocks into which a byte sequence falls when cut into pieces of
/// `size` bytes: every block holds exactly `size` bytes except the last,
/// which holds whatever remains. A `size` of zero yields no blocks, which is
/// how a reader that fills an empty buffer behaves: it reads nothing.
pub open spec fn chunks(data: Seq<u8>, size: nat) -> Seq<Seq<u8>>
    decreases data.len(),
{
    if size == 0 || data.len() == 0 {
        Seq::empty()
    } else if data.len() <= size {
        seq![data]
    } else {
        seq![data.take(size as int)] + chunks(data.skip(size as int), size)
    }
}

/// How many shards a sequence of `len` bytes yields: `len / size` rounded
/// up, and none at all when `size` is zero.
pub open spec fn chunk_count(len: nat, size: nat) -> nat {
    if size == 0 {
        0
    } else {
        ((len + size - 1) / (size as int)) as nat
    }
}

/// What the sharder produces from `data`: block `i` of the input, under the
/// name of index `i`.
pub open spec fn shard_entries_spec(data: Seq<u8>, size: nat) -> Seq<(Seq<u8>, Seq<u8>)> {
    Seq::new(
        chunks(data, size).len(),
        |i: int| (shard_name_spec(i as nat), chunks(data, size)[i]),
    )
}

/// Sharding a sequence of `len` bytes with blocks of `size` yields
/// `ceil(len / size)` blocks (none when `len` is zero), every one of them of
/// exactly `size` bytes except the last, which holds `len % size` bytes, or
/// a full `size` when `len` divides evenly.
pub proof fn lemma_chunk_sizes(data: Seq<u8>, size: nat)
    requires
        1 <= size,
    ensures
        chunks(data, size).len() == chunk_count(data.len(), size),
        forall|i: int|
            0 <= i < chunks(data, size).len() - 1 ==> (#[trigger] chunks(data, size)[i]).len()
                == size,
        chunks(data, size).len() > 0 ==> chunks(data, size).last().len() == (if data.len() % size
            == 0 {
            size as int
        } else {
            (data.len() % size) as int
        }),
    decreases data.len(),
{
    let len = data.len();
    if len == 0 {
        assert(chunk_count(0, size) == ((size - 1) as nat) / size);
        vstd::arithmetic::div_mod::lemma_basic_div((size - 1) as int, size as int);
    } else if len <= size {
        assert(chunks(data, size) =~= seq![data]);
        assert(chunk_count(len, size) == ((len + size - 1) / (size as int)) as nat);
        vstd::arithmetic::div_mod::lemma_fundamental_div_mod_converse(
            (len + size - 1) as int,
            size as int,
            1,
            (len - 1) as int,
        );
        if len == size {
            vstd::arithmetic::div_mod::lemma_mod_self_0(size as int);
        } else {
            vstd::arithmetic::div_mod::lemma_small_mod(len, size);
        }
    } else {
        let rest = data.skip(size as int);
        lemma_chunk_sizes(rest, size);
        let cs = chunks(data, size);
        let cr = chunks(rest, size);
        assert(cs =~= seq![data.take(size as int)] + cr);
        // the count steps by one when the length steps by one block
        let x = (len - 1) as int;
        let s = size as int;
        let t = x / s;
        vstd::arithmetic::div_mod::lemma_fundamental_div_mod(x, s);
        vstd::arithmetic::div_mod::lemma_mod_bound(x, s);
        assert(s * (t + 1) == s * t + s) by (nonlinear_arith);
        assert((len + size - 1) as int == (t + 1) * s + x % s);
        vstd::arithmetic::div_mod::lemma_fundamental_div_mod_converse(
            (len + size - 1) as int,
            s,
            t + 1,
            x % s,
        );
        assert(chunk_count((len - size) as nat, size) == t);
        // the remainder is unchanged by dropping one full block
        vstd::arithmetic::div_mod::lemma_mod_sub_multiples_vanish(len as int, size as int);
        assert(cs.last() == cr.last());
    }
}

/// Cuts `data` into blocks of at most `max_size` bytes and pairs each block
/// with the filename of its index. A `max_size` of zero produces nothing,
/// as reading through a zero-length buffer would.
pub fn shard(data: &Vec<u8>, max_size: usize) -> (shards: Vec<ShardEntry>)
    ensures
        entries_model(shards@) == shard_entries_spec(data@, max_size as nat),
        shards@.len() == chunk_count(data@.len(), max_size as nat),
{
    let ghost size = max_size as nat;
    let ghost cs = chunks(data@, size);
    let mut shards: Vec<ShardEntry> = Vec::new();
    if max_size == 0 {
        proof {
            assert(entries_model(shards@) =~= shard_entries_spec(data@, 0));
        }
        return shards;
    }
    proof {
        lemma_chunk_sizes(data@, size);
        assert(data@.skip(0) =~= data@);
    }
    let mut pos: usize = 0;
    while pos < data.len()
        invariant
            1 <= max_size,
            pos <= data@.len(),
            size == max_size as nat,
            cs == chunks(data@, size),
            shards@.len() <= cs.len(),
            entries_model(shards@) =~= shard_entries_spec(data@, size).take(shards@.len() as int),
            cs.skip(shards@.len() as int) == chunks(data@.skip(pos as int), size),
            pos == data@.len() ==> chunks(data@.skip(pos as int), size).len() == 0,
        decreases data@.len() - pos,
    {
        let remaining = data.len() - pos;
        let csize = if remaining > max_size {
            max_size
        } else {
            remaining
        };
        let ghost k = shards@.len() as int;
        proof {
            assert(data@.skip(pos as int).len() == remaining);
            assert(chunks(data@.skip(pos as int), size).len() > 0);
            assert(k < cs.len());
        }
        let end = pos + csize;
        let mut block: Vec<u8> = Vec::new();
        let mut i = pos;
        while i < end
            invariant
                pos <= i <= end,
                end == pos + csize,
                end <= data@.len(),
                block@ == data@.subrange(pos as int, i as int),
            decreases end - i,
        {
            let b = data[i];
            block.push(b);
            i = i + 1;
            proof {
                assert(block@ =~= data@.subrange(pos as int, i as int));
            }
        }
        let name = shard_name(shards.len());
        proof {
            let tail = data@.skip(pos as int);
            assert(cs.skip(k)[0] == cs[k]);
            if remaining <= max_size {
                assert(chunks(tail, size) =~= seq![tail]);
                assert(block@ =~= tail);
                assert(cs[k] == tail);
            } else {
                assert(chunks(tail, size) == seq![tail.take(size as int)] + chunks(
                    tail.skip(size as int),
                    size,
                ));
                assert(block@ =~= tail.take(size as int));
                assert(cs[k] == tail.take(size as int));
                assert(tail.skip(size as int) =~= data@.skip(pos as int + csize as int));
            }
        }
        let entry = ShardEntry { name, data: block };
        let ghost before = shards@;
        shards.push(entry);
        pos = pos + csize;
        proof {
            assert(entries_model(shards@) =~= entries_model(before).push(entry@));
            assert(entries_model(shards@) =~= shard_entries_spec(data@, size).take(k + 1));
            assert(cs.skip(k + 1) =~= cs.skip(k).skip(1));
            if remaining <= max_size {
                assert(chunks(data@.skip(pos as int), size).len() == 0) by {
                    assert(data@.skip(pos as int).len() == 0);
                }
                assert(cs.skip(k + 1) =~= chunks(data@.skip(pos as int), size));
            } else {
                assert(cs.skip(k).skip(1) =~= chunks(data@.skip(pos as int), size));
            }
        }
    }
    proof {
        assert(chunks(data@.skip(pos as int), size).len() == 0);
        assert(shards@.len() == cs.len());
        assert(entries_model(shards@) =~= shard_entries_spec(data@, size));
    }
    shards
}

} // verus!
