use fileshard::bytes::lex_less_bytes;
use fileshard::entry::ShardEntry;
use fileshard::names::has_shard_prefix_bytes;
use fileshard::names::shard_name;
use fileshard::reconstruct::reconstruct;
use fileshard::shard::shard;

fn entry(name: &[u8], data: &[u8]) -> ShardEntry {
    ShardEntry { name: name.to_vec(), data: data.to_vec() }
}

#[test]
fn round_trip_scenario() {
    let data = b"0123456789".to_vec();
    let shards = shard(&data, 3);
    assert_eq!(reconstruct(shards), data);
}

#[test]
fn round_trip_many_sizes() {
    let data: Vec<u8> = (0..100u16).map(|i| (i % 251) as u8).collect();
    for size in 1..14usize {
        let shards = shard(&data, size);
        assert_eq!(reconstruct(shards), data, "block size {}", size);
    }
}

#[test]
fn reconstruct_empty_listing_yields_empty_file() {
    assert_eq!(reconstruct(Vec::new()), Vec::<u8>::new());
}

#[test]
fn reconstruct_ignores_foreign_names() {
    let entries = vec![entry(b"notes.txt", b"xyz"), entry(b"shar", b"q")];
    assert_eq!(reconstruct(entries), Vec::<u8>::new());

    let entries = vec![
        entry(b"notes.txt", b"xyz"),
        entry(b"shard_0001", b"B"),
        entry(b"shard_0000", b"A"),
    ];
    assert_eq!(reconstruct(entries), b"AB".to_vec());
}

#[test]
fn reconstruct_sorts_by_name_not_arrival() {
    // entries arrive in the order a directory happened to list them
    let scrambled = vec![
        entry(b"shard_0002", b"c"),
        entry(b"shard_0000", b"a"),
        entry(b"shard_0003", b"d"),
        entry(b"shard_0001", b"b"),
    ];
    assert_eq!(reconstruct(scrambled), b"abcd".to_vec());

    let in_order = vec![
        entry(b"shard_0000", b"a"),
        entry(b"shard_0001", b"b"),
        entry(b"shard_0002", b"c"),
        entry(b"shard_0003", b"d"),
    ];
    assert_eq!(reconstruct(in_order), b"abcd".to_vec());
}

#[test]
fn reconstruct_twice_yields_identical_output() {
    let make = || {
        vec![
            entry(b"shard_0001", b"rld"),
            entry(b"shard_0000", b"wo"),
            entry(b"shard_0002", b"!"),
        ]
    };
    let first = reconstruct(make());
    let second = reconstruct(make());
    assert_eq!(first, second);
    assert_eq!(first, b"world!".to_vec());
}

#[test]
fn name_order_breaks_past_the_padding() {
    // five digits sort before four at the same prefix, so numeric order is lost
    let big = shard_name(10000);
    let small = shard_name(9999);
    assert!(lex_less_bytes(&big, &small));

    // a shard set past the boundary reassembles out of numeric order
    let entries = vec![entry(b"shard_9999", b"A"), entry(b"shard_10000", b"B")];
    assert_eq!(reconstruct(entries), b"BA".to_vec());
}

#[test]
fn prefix_check_matches_exactly() {
    assert!(has_shard_prefix_bytes(&b"shard_0000".to_vec()));
    assert!(has_shard_prefix_bytes(&b"shard_".to_vec()));
    assert!(has_shard_prefix_bytes(&b"shard_extra".to_vec()));
    assert!(!has_shard_prefix_bytes(&b"shard".to_vec()));
    assert!(!has_shard_prefix_bytes(&b"Shard_0000".to_vec()));
    assert!(!has_shard_prefix_bytes(&b"".to_vec()));
    assert!(!has_shard_prefix_bytes(&b"xshard_0000".to_vec()));
}

#[test]
fn lexicographic_order_on_bytes() {
    assert!(lex_less_bytes(&b"a".to_vec(), &b"b".to_vec()));
    assert!(lex_less_bytes(&b"a".to_vec(), &b"ab".to_vec()));
    assert!(!lex_less_bytes(&b"ab".to_vec(), &b"a".to_vec()));
    assert!(!lex_less_bytes(&b"a".to_vec(), &b"a".to_vec()));
    assert!(lex_less_bytes(&b"".to_vec(), &b"a".to_vec()));
    assert!(!lex_less_bytes(&b"".to_vec(), &b"".to_vec()));
}
