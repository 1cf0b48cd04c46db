use mini_lsm::block::builder::BlockBuilder;
use mini_lsm::block::iterator::BlockIterator;
use mini_lsm::block::Block;
use mini_lsm::iterators::StorageIterator;
use mini_lsm::key::{common_prefix, precedes, same_key, KeySlice, KeyVec};

fn collect(mut iter: BlockIterator) -> Vec<(Vec<u8>, Vec<u8>)> {
    let mut seen = Vec::new();
    while iter.is_valid() {
        seen.push((iter.key().to_vec(), iter.value().to_vec()));
        iter.next().unwrap();
    }
    seen
}

fn block_of(entries: &[(&[u8], &[u8])]) -> Block {
    let mut builder = BlockBuilder::new(4096);
    for (key, value) in entries.iter() {
        assert!(builder.add(KeySlice::from_slice(key), value));
    }
    builder.build()
}

#[test]
fn prefix_compression_of_second_key() {
    let mut builder = BlockBuilder::new(4096);
    assert!(builder.add(KeySlice::from_slice(b"apple"), b"1"));
    assert_eq!(builder.compute_key_overlap(b"application"), 4);
    assert!(builder.add(KeySlice::from_slice(b"application"), b"2"));
    let block = builder.build();
    assert_eq!(block.offsets(), &[0u16, 12]);
    let second = &block.data()[12..];
    assert_eq!(&second[0..2], &[0u8, 4]);
    assert_eq!(&second[2..4], &[0u8, 7]);
    assert_eq!(&second[4..11], b"ication");
    assert_eq!(&second[11..13], &[0u8, 1]);
    assert_eq!(&second[13..], b"2");
    let seen = collect(BlockIterator::create_and_seek_to_first(block));
    assert_eq!(seen[1].0, b"application".to_vec());
    assert_eq!(seen[1].1, b"2".to_vec());
}

#[test]
fn overlap_is_a_plain_common_prefix() {
    let mut builder = BlockBuilder::new(4096);
    assert_eq!(builder.compute_key_overlap(b"anything"), 0);
    assert!(builder.add(KeySlice::from_slice(b"abcabc"), b""));
    assert_eq!(builder.compute_key_overlap(b"abcabc"), 6);
    assert_eq!(builder.compute_key_overlap(b"abcabcd"), 6);
    assert_eq!(builder.compute_key_overlap(b"abc"), 3);
    assert_eq!(builder.compute_key_overlap(b"xbcabc"), 0);
    assert_eq!(builder.compute_key_overlap(b"bcabc"), 0);
    assert_eq!(builder.compute_key_overlap(b""), 0);
}

#[test]
fn first_entry_is_written_without_overlap() {
    let mut builder = BlockBuilder::new(64);
    assert!(builder.add(KeySlice::from_slice(b"key"), b"value"));
    let block = builder.build();
    assert_eq!(block.offsets(), &[0u16]);
    assert_eq!(block.data(), &[0u8, 0, 0, 3, b'k', b'e', b'y', 0, 5, b'v', b'a', b'l', b'u', b'e']);
}

#[test]
fn empty_builder_and_its_block() {
    let builder = BlockBuilder::new(16);
    assert!(builder.is_empty());
    let block = builder.build();
    assert_eq!(block.data().len(), 0);
    assert_eq!(block.offsets().len(), 0);
    assert_eq!(&block.encode()[..], &[0u8, 0]);
    assert!(block.is_parsable());
    assert!(!block.starts_with_key());
    let iter = BlockIterator::create_and_seek_to_first(block);
    assert!(!iter.is_valid());
}

#[test]
fn builder_is_not_empty_after_add() {
    let mut builder = BlockBuilder::new(16);
    assert!(builder.add(KeySlice::from_slice(b"k"), b"v"));
    assert!(!builder.is_empty());
}

#[test]
fn size_check_at_the_boundary() {
    // One entry of key "a" and value "b" encodes to 8 + 2 + 2 = 12 bytes; a
    // second one of one byte each is taken when 12 + 1 + 1 + 6 = 20 fits.
    let mut fits = BlockBuilder::new(20);
    assert!(fits.add(KeySlice::from_slice(b"a"), b"b"));
    assert!(fits.add(KeySlice::from_slice(b"c"), b"d"));
    assert_eq!(fits.build().offsets(), &[0u16, 8]);

    let mut full = BlockBuilder::new(19);
    assert!(full.add(KeySlice::from_slice(b"a"), b"b"));
    assert!(!full.add(KeySlice::from_slice(b"c"), b"d"));
    let block = full.build();
    assert_eq!(block.offsets(), &[0u16]);
    assert_eq!(block.data(), &[0u8, 0, 0, 1, b'a', 0, 1, b'b']);
}

#[test]
fn empty_builder_takes_an_entry_over_the_budget() {
    let mut builder = BlockBuilder::new(4);
    let value = vec![7u8; 100];
    assert!(builder.add(KeySlice::from_slice(b"large"), &value));
    assert!(!builder.add(KeySlice::from_slice(b"m"), b""));
    let block = builder.build();
    assert_eq!(block.offsets().len(), 1);
    assert_eq!(block.encode().len(), 6 + 5 + 100 + 2 + 2);
}

#[test]
fn blocks_of_keys_with_a_shared_prefix_stay_within_the_budget() {
    let block_size = 256;
    let mut builder = BlockBuilder::new(block_size);
    let mut taken = 0;
    for i in 0..100u8 {
        let key = [b'k', b'e', b'y', b'_', b'0' + i / 10, b'0' + i % 10];
        if !builder.add(KeySlice::from_slice(&key), b"some value") {
            break;
        }
        taken += 1;
    }
    assert!(taken >= 2);
    assert!(taken < 100);
    let block = builder.build();
    assert_eq!(block.offsets().len(), taken);
    assert!(block.encode().len() <= block_size);
}

#[test]
fn encode_lays_out_data_offsets_and_count() {
    let block = block_of(&[(b"k", b"v"), (b"l", b"w")]);
    let bytes = block.encode();
    let expected: Vec<u8> = vec![
        0, 0, 0, 1, b'k', 0, 1, b'v', 0, 0, 0, 1, b'l', 0, 1, b'w', 0, 0, 0, 8, 0, 2,
    ];
    assert_eq!(&bytes[..], &expected[..]);
}

#[test]
fn encode_writes_large_offsets_most_significant_byte_first() {
    let value = vec![1u8; 300];
    let block = block_of(&[(b"a", &value), (b"b", b"")]);
    // The first entry takes 6 + 1 + 300 = 307 = 0x0133 bytes.
    assert_eq!(block.offsets(), &[0u16, 307]);
    let bytes = block.encode();
    let tail = &bytes[bytes.len() - 6..];
    assert_eq!(tail, &[0u8, 0, 0x01, 0x33, 0, 2]);
    // The value length 300 = 0x012C stands after the key.
    assert_eq!(&bytes[5..7], &[0x01u8, 0x2C]);
}

#[test]
fn decode_splits_data_offsets_and_count() {
    let bytes: Vec<u8> = vec![9, 8, 7, 6, 5, 0x01, 0x02, 0xFF, 0xFE, 0, 2];
    assert!(Block::can_decode(&bytes));
    let block = Block::decode(&bytes);
    assert_eq!(block.data(), &[9u8, 8, 7, 6, 5]);
    assert_eq!(block.offsets(), &[0x0102u16, 0xFFFE]);
}

#[test]
fn decode_of_the_smallest_layout() {
    assert!(Block::can_decode(&[0, 0]));
    let block = Block::decode(&[0, 0]);
    assert_eq!(block.data().len(), 0);
    assert_eq!(block.offsets().len(), 0);
}

#[test]
fn can_decode_refuses_short_buffers() {
    assert!(!Block::can_decode(&[]));
    assert!(!Block::can_decode(&[0]));
    assert!(!Block::can_decode(&[0, 1]));
    assert!(!Block::can_decode(&[5, 0, 2]));
    assert!(!Block::can_decode(&[1, 2, 3, 0, 2]));
    assert!(Block::can_decode(&[1, 2, 3, 4, 0, 2]));
    assert!(Block::can_decode(&[1, 2, 3, 4, 5, 0, 2]));
}

#[test]
fn try_decode_gives_none_for_short_buffers() {
    assert!(Block::try_decode(&[]).is_none());
    assert!(Block::try_decode(&[7]).is_none());
    assert!(Block::try_decode(&[1, 2, 3, 0, 2]).is_none());
    let block = Block::try_decode(&[1, 2, 3, 0, 1, 0, 1]).unwrap();
    assert_eq!(block.data(), &[1u8, 2, 3]);
    assert_eq!(block.offsets(), &[1u16]);
}

#[test]
fn round_trip_through_bytes() {
    let entries: Vec<(&[u8], &[u8])> = vec![
        (b"", b"empty key"),
        (b"key_001", b"value_001"),
        (b"key_002", b""),
        (b"key_0021", b"x"),
        (b"zebra", b"stripes"),
    ];
    let block = block_of(&entries);
    let bytes = block.encode();
    let back = Block::decode(&bytes);
    assert_eq!(back.data(), block.data());
    assert_eq!(back.offsets(), block.offsets());
    assert!(back.is_parsable());
    let seen = collect(BlockIterator::create_and_seek_to_first(back));
    assert_eq!(seen.len(), entries.len());
    for (got, want) in seen.iter().zip(entries.iter()) {
        assert_eq!(&got.0[..], want.0);
        assert_eq!(&got.1[..], want.1);
    }
}

#[test]
fn first_key_after_an_empty_first_key_is_not_taken_as_first() {
    // The keys after an empty first key share nothing with it.
    let block = block_of(&[(b"", b"0"), (b"same", b"1"), (b"same_again", b"2")]);
    let seen = collect(BlockIterator::create_and_seek_to_first(block));
    assert_eq!(seen[0].0, b"".to_vec());
    assert_eq!(seen[1].0, b"same".to_vec());
    assert_eq!(seen[2].0, b"same_again".to_vec());
}

#[test]
fn get_first_key_reads_entry_zero() {
    let block = block_of(&[(b"first", b"1"), (b"second", b"2")]);
    assert!(block.starts_with_key());
    let key = block.get_first_key();
    assert_eq!(key.raw_ref(), b"first");
    assert_eq!(key.len(), 5);
}

#[test]
fn starts_with_key_refuses_a_cut_key() {
    // The key length says 5, and 3 bytes follow.
    let bytes: Vec<u8> = vec![0, 0, 0, 5, b'a', b'b', b'c', 0, 0, 0, 1];
    let block = Block::decode(&bytes);
    assert_eq!(block.offsets(), &[0u16]);
    assert!(!block.starts_with_key());
    assert!(!block.is_parsable());
}

#[test]
fn is_parsable_refuses_offsets_and_lengths_out_of_range() {
    let good = block_of(&[(b"ab", b"1"), (b"ac", b"2")]);
    let bytes = good.encode().to_vec();
    assert!(Block::decode(&bytes).is_parsable());

    // An offset beyond the data.
    let mut far = bytes.clone();
    let at = far.len() - 4;
    far[at] = 0x7F;
    assert!(!Block::decode(&far).is_parsable());

    // A value longer than what is left.
    let mut long = bytes.clone();
    long[7] = 200;
    assert!(!Block::decode(&long).is_parsable());

    // An overlap longer than the first key.
    let mut wide = bytes.clone();
    wide[10] = 3;
    assert!(!Block::decode(&wide).is_parsable());
}

#[test]
fn block_iterator_walks_and_stops() {
    let block = block_of(&[(b"a", b"1"), (b"b", b"2")]);
    let mut iter = BlockIterator::create_and_seek_to_first(block);
    assert_eq!(iter.num_active_iterators(), 1);
    assert!(iter.is_valid());
    assert_eq!(iter.key(), b"a");
    assert_eq!(iter.value(), b"1");
    assert_eq!(iter.next(), Ok(()));
    assert_eq!(iter.key(), b"b");
    assert_eq!(iter.value(), b"2");
    assert_eq!(iter.next(), Ok(()));
    assert!(!iter.is_valid());
    assert_eq!(iter.next(), Ok(()));
    assert!(!iter.is_valid());
    iter.seek_to_first();
    assert!(iter.is_valid());
    assert_eq!(iter.key(), b"a");
}

#[test]
fn block_iterator_seeks_to_the_first_key_not_before() {
    let entries: Vec<(&[u8], &[u8])> = vec![(b"b", b"1"), (b"d", b"2"), (b"f", b"3")];
    let mut iter = BlockIterator::create_and_seek_to_key(block_of(&entries), b"d");
    assert_eq!(iter.key(), b"d");
    iter.seek_to_key(b"c");
    assert_eq!(iter.key(), b"d");
    iter.seek_to_key(b"a");
    assert_eq!(iter.key(), b"b");
    iter.seek_to_key(b"e");
    assert_eq!(iter.key(), b"f");
    assert_eq!(iter.value(), b"3");
    iter.seek_to_key(b"f0");
    assert!(!iter.is_valid());
}

#[test]
fn keys_are_ordered_byte_by_byte() {
    assert!(precedes(b"a", b"b"));
    assert!(!precedes(b"b", b"a"));
    assert!(!precedes(b"a", b"a"));
    assert!(precedes(b"", b"a"));
    assert!(!precedes(b"", b""));
    assert!(precedes(b"ab", b"abc"));
    assert!(!precedes(b"abc", b"ab"));
    assert!(precedes(b"abc", b"abd"));
    assert!(precedes(&[0x7F], &[0x80]));
    assert!(precedes(b"Z", b"a"));
    assert!(precedes(b"10", b"9"));
}

#[test]
fn keys_are_the_same_when_all_bytes_are() {
    assert!(same_key(b"", b""));
    assert!(same_key(b"key", b"key"));
    assert!(!same_key(b"key", b"kez"));
    assert!(!same_key(b"key", b"ke"));
    assert!(!same_key(b"", b"k"));
}

#[test]
fn common_prefix_counts_leading_equal_bytes() {
    assert_eq!(common_prefix(b"", b""), 0);
    assert_eq!(common_prefix(b"abc", b""), 0);
    assert_eq!(common_prefix(b"abc", b"abd"), 2);
    assert_eq!(common_prefix(b"abc", b"abcde"), 3);
    assert_eq!(common_prefix(b"xbc", b"abc"), 0);
}

#[test]
fn key_forms_convert_into_each_other() {
    let slice = KeySlice::from_slice(b"key");
    assert_eq!(slice.len(), 3);
    assert!(!slice.is_empty());
    assert_eq!(slice.raw_ref(), b"key");
    let owned = slice.to_key_vec();
    assert_eq!(owned.raw_ref(), b"key");
    assert_eq!(owned.as_key_slice().raw_ref(), b"key");
    assert_eq!(owned.into_inner(), b"key".to_vec());
    let empty = KeyVec::new();
    assert!(empty.is_empty());
    assert_eq!(empty.len(), 0);
    assert!(KeySlice::from_slice(b"").is_empty());
    assert_eq!(KeyVec::from_vec(vec![1, 2]).raw_ref(), &[1u8, 2]);
}
