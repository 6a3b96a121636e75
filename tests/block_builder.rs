use mini_lsm::block::{Block, BlockBuilder};

fn entry_at(data: &[u8], off: usize) -> (Vec<u8>, Vec<u8>) {
    let key_len = (data[off] as usize) * 256 + data[off + 1] as usize;
    let key = data[off + 2..off + 2 + key_len].to_vec();
    let v = off + 2 + key_len;
    let value_len = (data[v] as usize) * 256 + data[v + 1] as usize;
    let value = data[v + 2..v + 2 + value_len].to_vec();
    (key, value)
}

fn sample_entries(n: usize) -> Vec<(Vec<u8>, Vec<u8>)> {
    (0..n)
        .map(|i| (format!("key_{:03}", i).into_bytes(), format!("value_{}", i).into_bytes()))
        .collect()
}

#[test]
fn first_entry_accepted_even_when_oversized() {
    let mut b = BlockBuilder::new(16);
    assert!(b.is_empty());
    assert!(b.add(&[7u8; 40], &[9u8; 40]));
    assert!(!b.is_empty());
    assert!(!b.add(b"k", b"v"));
    let block = b.build();
    assert_eq!(block.offsets, vec![0]);
    assert_eq!(block.data.len(), 84);
}

#[test]
fn adds_under_target_are_all_accepted_and_kept_in_order() {
    let entries = sample_entries(10);
    let mut b = BlockBuilder::new(4096);
    for (k, v) in &entries {
        assert!(b.add(k, v));
    }
    let block = b.build();
    assert_eq!(block.offsets.len(), entries.len());
    for (i, e) in entries.iter().enumerate() {
        assert_eq!(&entry_at(&block.data, block.offsets[i] as usize), e);
    }
}

#[test]
fn entry_layout_is_length_prefixed() {
    let mut b = BlockBuilder::new(4096);
    assert!(b.add(b"a", b"bc"));
    assert!(b.add(b"d", b""));
    let block = b.build();
    assert_eq!(block.data, vec![0, 1, b'a', 0, 2, b'b', b'c', 0, 1, b'd', 0, 0]);
    assert_eq!(block.offsets, vec![0, 7]);
    assert_eq!(
        block.encode(),
        vec![0, 1, b'a', 0, 2, b'b', b'c', 0, 1, b'd', 0, 0, 0, 0, 0, 7, 0, 2]
    );
}

#[test]
fn rejects_when_projected_size_reaches_target() {
    // After ("k", "v"): 6 data bytes, one offset, the count: 10. Adding ("a", "b")
    // charges 2 more bytes and 6 of overhead: 18.
    let mut at_limit = BlockBuilder::new(18);
    assert!(at_limit.add(b"k", b"v"));
    assert!(!at_limit.add(b"a", b"b"));
    let mut under_limit = BlockBuilder::new(19);
    assert!(under_limit.add(b"k", b"v"));
    assert!(under_limit.add(b"a", b"b"));
    let block = under_limit.build();
    assert_eq!(block.offsets, vec![0, 6]);
}

#[test]
fn rejected_add_leaves_builder_unchanged() {
    let mut b = BlockBuilder::new(12);
    assert!(b.add(b"k", b"v"));
    assert!(!b.add(b"another", b"entry"));
    let block = b.build();
    assert_eq!(block.data, vec![0, 1, b'k', 0, 1, b'v']);
    assert_eq!(block.offsets, vec![0]);
}

#[test]
fn block_round_trip_through_bytes() {
    let entries = sample_entries(25);
    let mut b = BlockBuilder::new(4096);
    for (k, v) in &entries {
        assert!(b.add(k, v));
    }
    let block = b.build();
    let bytes = block.encode();
    let decoded = Block::decode(&bytes).unwrap();
    assert_eq!(decoded.data, block.data);
    assert_eq!(decoded.offsets, block.offsets);
    let parsed: Vec<(Vec<u8>, Vec<u8>)> = decoded
        .offsets
        .iter()
        .map(|o| entry_at(&decoded.data, *o as usize))
        .collect();
    assert_eq!(parsed, entries);
}

#[test]
fn decode_rejects_short_input() {
    assert!(Block::decode(&[]).is_none());
    assert!(Block::decode(&[0]).is_none());
    assert!(Block::decode(&[0, 5]).is_none());
    let empty = Block::decode(&[0, 0]).unwrap();
    assert!(empty.data.is_empty());
    assert!(empty.offsets.is_empty());
}
