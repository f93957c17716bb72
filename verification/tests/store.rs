use unicache::block::{BlockEntry, BlockError, BlockInfo, BlockStore};
use unicache::cache::{CacheError, CacheStorage};

#[test]
fn dedup_same_content_stored_once() {
    let mut store = BlockStore::new();
    let d1 = store.store_block(b"hello world").unwrap();
    assert_eq!(store.total_size(), 11);
    assert_eq!(store.block_count(), 1);
    let d2 = store.store_block(b"hello world").unwrap();
    assert_eq!(d1, d2);
    assert_eq!(store.total_size(), 11);
    assert_eq!(store.block_count(), 1);
    assert_eq!(store.data_bytes().len(), 11);
    let d3 = store.store_block(b"other").unwrap();
    assert_ne!(d1, d3);
    assert_eq!(store.block_count(), 2);
    assert_eq!(store.data_bytes().len(), 16);
}

#[test]
fn digest_is_32_bytes() {
    let d = BlockStore::hash_block(b"abc");
    assert_eq!(d.len(), 32);
    let e = BlockStore::hash_block(b"abd");
    assert_ne!(d, e);
    assert_eq!(d, BlockStore::hash_block(b"abc"));
}

#[test]
fn read_block_returns_original_bytes() {
    let mut store = BlockStore::new();
    let d1 = store.store_block(b"first block").unwrap();
    let d2 = store.store_block(b"second").unwrap();
    assert_eq!(store.read_block(&d1).unwrap(), b"first block".to_vec());
    assert_eq!(store.read_block(&d2).unwrap(), b"second".to_vec());
}

#[test]
fn read_block_unknown_digest_fails() {
    let store = BlockStore::new();
    let missing = vec![0u8; 32];
    match store.read_block(&missing) {
        Err(BlockError::BlockNotFound(h)) => assert_eq!(h, missing),
        _ => panic!("expected BlockNotFound"),
    }
}

#[test]
fn refcount_n_stores_n_releases() {
    let mut store = BlockStore::new();
    let n = 5;
    let mut d = Vec::new();
    for _ in 0..n {
        d = store.store_block(b"counted").unwrap();
    }
    for k in 0..n {
        let removed = store.decrement_ref(&d).unwrap();
        if k < n - 1 {
            assert!(!removed);
            // still retrievable before the n-th release
            assert_eq!(store.read_block(&d).unwrap(), b"counted".to_vec());
        } else {
            assert!(removed);
        }
    }
    assert!(matches!(store.read_block(&d), Err(BlockError::BlockNotFound(_))));
    assert!(matches!(store.decrement_ref(&d), Err(BlockError::BlockNotFound(_))));
}

#[test]
fn refcount_saturated_store_fails() {
    let mut store = BlockStore::new();
    let content = b"full";
    let digest = BlockStore::hash_block(content);
    let entry = BlockEntry {
        digest,
        info: BlockInfo { offset: 0, size: 4, ref_count: u32::MAX },
    };
    let mut loaded = BlockStore::from_data(content.to_vec());
    loaded.set_index(vec![entry]);
    assert_eq!(loaded.block_count(), 1);
    assert!(matches!(loaded.store_block(content), Err(BlockError::TooManyReferences)));
}

#[test]
fn set_index_skips_malformed_entries() {
    let mut store = BlockStore::from_data(vec![1, 2, 3, 4]);
    let good = BlockEntry {
        digest: vec![7u8; 32],
        info: BlockInfo { offset: 0, size: 4, ref_count: 1 },
    };
    let short_digest = BlockEntry {
        digest: vec![7u8; 16],
        info: BlockInfo { offset: 0, size: 1, ref_count: 1 },
    };
    let out_of_range = BlockEntry {
        digest: vec![9u8; 32],
        info: BlockInfo { offset: 2, size: 4, ref_count: 1 },
    };
    let zero_count = BlockEntry {
        digest: vec![5u8; 32],
        info: BlockInfo { offset: 0, size: 1, ref_count: 0 },
    };
    let duplicate = BlockEntry {
        digest: vec![7u8; 32],
        info: BlockInfo { offset: 0, size: 2, ref_count: 3 },
    };
    store.set_index(vec![good, short_digest, out_of_range, zero_count, duplicate]);
    assert_eq!(store.block_count(), 1);
    assert_eq!(store.total_size(), 4);
}

#[test]
fn round_trip_all_edge_sizes() {
    // sizes around the block size: 0, 1, bs-1, bs, bs+1, a multiple, and large
    let sizes = [0usize, 1, 3, 4, 5, 12, 4 * 250 + 3];
    for (k, n) in sizes.iter().enumerate() {
        let mut cache = CacheStorage::new(4);
        let content: Vec<u8> = (0..*n).map(|i| (i % 251) as u8).collect();
        let id = format!("file-{}", k).into_bytes();
        cache.store_file(&id, b"name.bin", &content).unwrap();
        assert_eq!(cache.retrieve_file(&id).unwrap(), content);
    }
}

#[test]
fn scenario_two_files_share_a_block() {
    let mut cache = CacheStorage::new(4);
    cache.store_file(b"f1", b"f1.bin", b"ABCDEFGHIJ").unwrap();
    // 3 blocks: "ABCD", "EFGH", "IJ"
    assert_eq!(cache.get_stats(), (3, 1, 10, 10));
    cache.store_file(b"f2", b"f2.bin", b"ABCDXXXXXX").unwrap();
    // shares "ABCD"; the new blocks "XXXX" and "XX" add 6 stored bytes
    assert_eq!(cache.get_stats(), (5, 2, 16, 20));
    cache.remove_file(b"f1").unwrap();
    // "ABCD" stays (still referenced by f2); "EFGH" and "IJ" leave
    assert_eq!(cache.get_stats(), (3, 1, 10, 10));
    assert_eq!(cache.retrieve_file(b"f2").unwrap(), b"ABCDXXXXXX".to_vec());
    assert!(matches!(
        cache.retrieve_file(b"f1"),
        Err(CacheError::FileNotFound(_))
    ));
}

#[test]
fn removal_keeps_shared_blocks_readable() {
    let mut cache = CacheStorage::new(4);
    cache.store_file(b"a", b"a", b"SAMESAME").unwrap();
    cache.store_file(b"b", b"b", b"SAMEDIFF").unwrap();
    cache.remove_file(b"a").unwrap();
    assert_eq!(cache.retrieve_file(b"b").unwrap(), b"SAMEDIFF".to_vec());
}

#[test]
fn logical_bytes_at_least_stored_bytes() {
    let mut cache = CacheStorage::new(4);
    cache.store_file(b"a", b"a", b"AAAABBBB").unwrap();
    cache.store_file(b"b", b"b", b"AAAACCCC").unwrap();
    cache.store_file(b"c", b"c", b"AAAABBBB").unwrap();
    let (_, _, stored, logical) = cache.get_stats();
    assert!(logical >= stored);
    assert_eq!(logical, 24);
    assert_eq!(stored, 12);
    // equality when no blocks are shared
    let mut lone = CacheStorage::new(4);
    lone.store_file(b"x", b"x", b"ABCDEFGH").unwrap();
    lone.store_file(b"y", b"y", b"IJKLMNOP").unwrap();
    let (_, _, s2, l2) = lone.get_stats();
    assert_eq!(s2, l2);
}

#[test]
fn file_not_found_errors() {
    let mut cache = CacheStorage::new(4);
    assert!(matches!(
        cache.retrieve_file(b"nope"),
        Err(CacheError::FileNotFound(h)) if h == b"nope".to_vec()
    ));
    assert!(matches!(
        cache.remove_file(b"nope"),
        Err(CacheError::FileNotFound(_))
    ));
}

#[test]
fn overwrite_keeps_old_references() {
    let mut cache = CacheStorage::new(4);
    cache.store_file(b"f", b"f", b"AAAA").unwrap();
    assert_eq!(cache.get_stats(), (1, 1, 4, 4));
    // re-storing under the same id does not release the old blocks
    cache.store_file(b"f", b"f", b"BBBB").unwrap();
    assert_eq!(cache.get_stats(), (2, 1, 8, 4));
    assert_eq!(cache.retrieve_file(b"f").unwrap(), b"BBBB".to_vec());
}

#[test]
fn empty_file_round_trip() {
    let mut cache = CacheStorage::new(4);
    cache.store_file(b"empty", b"empty", b"").unwrap();
    assert_eq!(cache.retrieve_file(b"empty").unwrap(), Vec::<u8>::new());
    assert_eq!(cache.get_stats(), (0, 1, 0, 0));
}

#[test]
fn missing_block_surfaces_block_error() {
    // a loaded file record can reference a digest the block index lacks
    let mut cache = CacheStorage::new(4);
    cache.store_file(b"f", b"f", b"ABCD").unwrap();
    let bytes = cache.save_index().unwrap();
    // reopen over an empty data region: the block entry is skipped as out
    // of range, while the file record survives
    let reopened = CacheStorage::open(4, Vec::new(), &bytes).unwrap();
    assert!(matches!(
        reopened.retrieve_file(b"f"),
        Err(CacheError::Block(BlockError::BlockNotFound(_)))
    ));
}
