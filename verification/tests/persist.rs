use unicache::cache::{CacheError, CacheStorage};
use unicache::codec::{decode_index, encode_index};
use unicache::hashing::{from_hex, to_hex};

#[test]
fn hex_rendering_matches_crate() {
    assert_eq!(to_hex(&[0x00, 0xff, 0x1a]), b"00ff1a".to_vec());
    assert_eq!(to_hex(&[]), Vec::<u8>::new());
    assert_eq!(from_hex(b"00ff1a"), Some(vec![0x00, 0xff, 0x1a]));
    assert_eq!(from_hex(b"00FF1A"), Some(vec![0x00, 0xff, 0x1a]));
    assert_eq!(from_hex(b"0f0"), None); // odd length
    assert_eq!(from_hex(b"zz"), None); // not hexadecimal
}

#[test]
fn persistence_round_trip_reproduces_indexes() {
    let mut cache = CacheStorage::new(4);
    cache.store_file(b"f1", b"one.bin", b"ABCDEFGHIJ").unwrap();
    cache.store_file(b"f2", b"two.bin", b"ABCDXXXXXX").unwrap();
    cache.remove_file(b"f1").unwrap();
    let stats = cache.get_stats();
    let index_bytes = cache.save_index().unwrap();
    let data = cache.data_bytes().clone();

    let reopened = CacheStorage::open(4, data, &index_bytes).unwrap();
    assert_eq!(reopened.get_stats(), stats);
    assert_eq!(reopened.retrieve_file(b"f2").unwrap(), b"ABCDXXXXXX".to_vec());
    assert!(!reopened.is_modified());
    // a further mutation changes the serialized index
    let mut touched = reopened;
    touched.store_file(b"f3", b"three.bin", b"ABCD").unwrap();
    let again = touched.save_index().unwrap();
    assert_ne!(again, index_bytes);
}

#[test]
fn save_index_skipped_when_clean() {
    let mut cache = CacheStorage::new(4);
    assert_eq!(cache.save_index(), None);
    cache.store_file(b"f", b"f", b"DATA").unwrap();
    assert!(cache.save_index().is_some());
}

#[test]
fn unparsable_index_is_rejected() {
    assert!(matches!(
        CacheStorage::open(4, Vec::new(), b"short"),
        Err(CacheError::Serialization)
    ));
    // a plausible prefix with a truncated body
    let mut bytes = 5u64.to_le_bytes().to_vec();
    bytes.extend_from_slice(b"garbage");
    assert!(matches!(
        CacheStorage::open(4, Vec::new(), &bytes),
        Err(CacheError::Serialization)
    ));
}

#[test]
fn malformed_digest_entry_is_skipped_on_load() {
    let mut cache = CacheStorage::new(4);
    cache.store_file(b"f", b"f", b"ABCDEFGH").unwrap();
    let mut bytes = cache.save_index().unwrap();
    let data = cache.data_bytes().clone();
    // corrupt the first entry's hexadecimal digest (it starts after the
    // 8-byte entry count)
    bytes[8] = b'z';
    let reopened = CacheStorage::open(4, data, &bytes).unwrap();
    let (blocks, files, _, _) = reopened.get_stats();
    assert_eq!(blocks, 1); // one of the two entries was dropped
    assert_eq!(files, 1);
}

#[test]
fn codec_round_trip_on_decoded_values() {
    let mut cache = CacheStorage::new(4);
    cache.store_file(b"id-one", b"name-one", b"ABCDEFGHIJ").unwrap();
    let bytes = cache.save_index().unwrap();
    let (entries, files) = decode_index(&bytes).unwrap();
    assert_eq!(entries.len(), 3);
    assert_eq!(files.len(), 1);
    assert_eq!(files[0].id, b"id-one".to_vec());
    assert_eq!(files[0].info.name, b"name-one".to_vec());
    assert_eq!(files[0].info.size, 10);
    assert_eq!(files[0].info.blocks.len(), 3);
    let re_encoded = encode_index(&entries, &files);
    assert_eq!(re_encoded, bytes);
}
