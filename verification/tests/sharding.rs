use fileshard::entry::ShardEntry;
use fileshard::names::shard_name;
use fileshard::shard::shard;

fn names_of(shards: &[ShardEntry]) -> Vec<Vec<u8>> {
    shards.iter().map(|s| s.name.clone()).collect()
}

#[test]
fn shard_scenario_ten_bytes() {
    let data = b"0123456789".to_vec();
    let shards = shard(&data, 3);
    assert_eq!(shards.len(), 4);
    assert_eq!(shards[0].name, b"shard_0000".to_vec());
    assert_eq!(shards[0].data, b"012".to_vec());
    assert_eq!(shards[1].name, b"shard_0001".to_vec());
    assert_eq!(shards[1].data, b"345".to_vec());
    assert_eq!(shards[2].name, b"shard_0002".to_vec());
    assert_eq!(shards[2].data, b"678".to_vec());
    assert_eq!(shards[3].name, b"shard_0003".to_vec());
    assert_eq!(shards[3].data, b"9".to_vec());
}

#[test]
fn shard_count_is_rounded_up() {
    let data = vec![7u8; 10];
    assert_eq!(shard(&data, 5).len(), 2);
    assert_eq!(shard(&data, 4).len(), 3);
    assert_eq!(shard(&data, 3).len(), 4);
    assert_eq!(shard(&data, 10).len(), 1);
    assert_eq!(shard(&data, 11).len(), 1);
    assert_eq!(shard(&data, 1).len(), 10);
}

#[test]
fn shard_sizes_full_except_last() {
    let data = (0u8..=99).collect::<Vec<u8>>();
    let shards = shard(&data, 7);
    assert_eq!(shards.len(), 15);
    for s in &shards[..14] {
        assert_eq!(s.data.len(), 7);
    }
    assert_eq!(shards[14].data.len(), 2);

    // an exact multiple leaves the last shard full
    let shards = shard(&data, 25);
    assert_eq!(shards.len(), 4);
    for s in &shards {
        assert_eq!(s.data.len(), 25);
    }
}

#[test]
fn shard_empty_input_yields_no_shards() {
    let data: Vec<u8> = Vec::new();
    assert_eq!(shard(&data, 4).len(), 0);
    assert_eq!(shard(&data, 1).len(), 0);
}

#[test]
fn shard_zero_size_yields_no_shards() {
    // a zero-byte read buffer never picks anything up
    let data = b"abc".to_vec();
    assert_eq!(shard(&data, 0).len(), 0);
}

#[test]
fn shard_names_follow_index_order() {
    let data = vec![1u8; 6];
    let shards = shard(&data, 2);
    assert_eq!(
        names_of(&shards),
        vec![b"shard_0000".to_vec(), b"shard_0001".to_vec(), b"shard_0002".to_vec()]
    );
}

#[test]
fn shard_name_is_zero_padded() {
    assert_eq!(shard_name(0), b"shard_0000".to_vec());
    assert_eq!(shard_name(7), b"shard_0007".to_vec());
    assert_eq!(shard_name(42), b"shard_0042".to_vec());
    assert_eq!(shard_name(123), b"shard_0123".to_vec());
    assert_eq!(shard_name(9999), b"shard_9999".to_vec());
}

#[test]
fn shard_name_grows_past_the_padding() {
    assert_eq!(shard_name(10000), b"shard_10000".to_vec());
    assert_eq!(shard_name(12345), b"shard_12345".to_vec());
}
