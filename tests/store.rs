use actionkv::clock::{Clock, Instant};
use actionkv::codec::{decode, decode_with_checksum, encode, encode_with_checksum, KvError};
use actionkv::index::Index;
use actionkv::store::ActionKV;

fn reopen(store: &ActionKV) -> ActionKV {
    let mut fresh = ActionKV::open(store.log().to_vec());
    fresh.load().unwrap();
    fresh
}

fn sorted_entries(store: &ActionKV) -> Vec<(Vec<u8>, u64)> {
    let mut e = store.index().iterate();
    e.sort();
    e
}

#[test]
fn encode_layout() {
    let r = encode(b"1234", b"56789");
    // CRC-32 (IEEE) of "123456789" is 0xCBF43926.
    assert_eq!(&r[0..4], &[0x26, 0x39, 0xF4, 0xCB]);
    assert_eq!(&r[4..8], &[4, 0, 0, 0]);
    assert_eq!(&r[8..12], &[5, 0, 0, 0]);
    assert_eq!(&r[12..], b"123456789");
}

#[test]
fn encode_empty_record() {
    let r = encode(b"", b"");
    assert_eq!(r, vec![0u8; 12]);
}

#[test]
fn encode_with_given_checksum() {
    let r = encode_with_checksum(b"k", b"vv", 0x0102_0304);
    assert_eq!(r, vec![4, 3, 2, 1, 1, 0, 0, 0, 2, 0, 0, 0, b'k', b'v', b'v']);
}

#[test]
fn round_trip_records() {
    let cases: Vec<(&[u8], &[u8])> = vec![(b"", b""), (b"a", b""), (b"", b"b"), (b"key", b"value"), (&[0, 255, 7], &[128; 40])];
    for (k, v) in cases {
        let bytes = encode(k, v);
        let (kv, next) = decode(&bytes, 0).unwrap();
        assert_eq!(kv.key, k);
        assert_eq!(kv.value, v);
        assert_eq!(next, bytes.len());
    }
}

#[test]
fn decode_at_offset() {
    let mut bytes = encode(b"first", b"1");
    let second = bytes.len();
    bytes.extend(encode(b"second", b"22"));
    let (kv, next) = decode(&bytes, second).unwrap();
    assert_eq!(kv.key, b"second");
    assert_eq!(kv.value, b"22");
    assert_eq!(next, bytes.len());
}

#[test]
fn flipped_body_byte_is_checksum_mismatch() {
    let bytes = encode(b"key", b"value");
    for i in 12..bytes.len() {
        let mut bad = bytes.clone();
        bad[i] ^= 0x01;
        assert!(matches!(decode(&bad, 0), Err(KvError::ChecksumMismatch)), "byte {}", i);
    }
}

#[test]
fn decode_truncated_header() {
    let bytes = encode(b"key", b"value");
    assert!(matches!(decode(&bytes[..11], 0), Err(KvError::Truncated)));
    assert!(matches!(decode(&[], 0), Err(KvError::Truncated)));
    assert!(matches!(decode(&bytes, bytes.len()), Err(KvError::Truncated)));
    assert!(matches!(decode(&bytes, bytes.len() + 5), Err(KvError::Truncated)));
}

#[test]
fn decode_truncated_body() {
    let bytes = encode(b"key", b"value");
    for cut in 12..bytes.len() {
        assert!(matches!(decode(&bytes[..cut], 0), Err(KvError::Truncated)));
    }
}

#[test]
fn decode_with_checksum_checks_given_sum() {
    let bytes = encode_with_checksum(b"ab", b"c", 77);
    let (kv, next) = decode_with_checksum(&bytes, 0, 77).unwrap();
    assert_eq!(kv.key, b"ab");
    assert_eq!(kv.value, b"c");
    assert_eq!(next, 15);
    assert!(matches!(decode_with_checksum(&bytes, 0, 78), Err(KvError::ChecksumMismatch)));
    assert!(matches!(decode_with_checksum(&bytes[..14], 0, 77), Err(KvError::Truncated)));
}

#[test]
fn index_set_get_iterate() {
    let mut idx = Index::new();
    assert_eq!(idx.get(b"a"), None);
    idx.set(b"a", 10);
    idx.set(b"b", 20);
    idx.set(b"a", 30);
    assert_eq!(idx.get(b"a"), Some(30));
    assert_eq!(idx.get(b"b"), Some(20));
    assert_eq!(idx.get(b"c"), None);
    assert_eq!(idx.len(), 2);
    let mut e = idx.iterate();
    e.sort();
    assert_eq!(e, vec![(b"a".to_vec(), 30), (b"b".to_vec(), 20)]);
}

#[test]
fn last_write_wins_and_survives_reopen() {
    let mut store = ActionKV::open(Vec::new());
    store.load().unwrap();
    store.insert(b"K", b"V1");
    store.insert(b"K", b"V2");
    assert_eq!(store.get(b"K").unwrap(), Some(b"V2".to_vec()));
    let again = reopen(&store);
    assert_eq!(again.get(b"K").unwrap(), Some(b"V2".to_vec()));
}

#[test]
fn delete_leaves_empty_value() {
    let mut store = ActionKV::open(Vec::new());
    store.load().unwrap();
    store.insert(b"K", b"V");
    store.delete(b"K");
    assert_eq!(store.get(b"K").unwrap(), Some(Vec::new()));
    assert_eq!(store.get(b"never").unwrap(), None);
    let again = reopen(&store);
    assert_eq!(again.get(b"K").unwrap(), Some(Vec::new()));
    assert_eq!(again.get(b"never").unwrap(), None);
}

#[test]
fn load_twice_same_index() {
    let mut store = ActionKV::open(Vec::new());
    store.insert(b"x", b"1");
    store.insert(b"y", b"2");
    store.insert(b"x", b"3");
    let mut other = ActionKV::open(store.log().to_vec());
    other.load().unwrap();
    let first = sorted_entries(&other);
    other.load().unwrap();
    let second = sorted_entries(&other);
    assert_eq!(first, second);
    assert_eq!(first.len(), 2);
}

#[test]
fn truncated_tail_is_dropped() {
    let mut store = ActionKV::open(Vec::new());
    store.insert(b"a", b"1");
    store.insert(b"b", b"2");
    let whole = store.log().to_vec();
    let tail = encode(b"c", b"3");
    for cut in 0..tail.len() {
        let mut bytes = whole.clone();
        bytes.extend_from_slice(&tail[..cut]);
        let mut s = ActionKV::open(bytes);
        assert!(s.load().is_ok());
        assert_eq!(s.get(b"a").unwrap(), Some(b"1".to_vec()));
        assert_eq!(s.get(b"b").unwrap(), Some(b"2".to_vec()));
        assert_eq!(s.get(b"c").unwrap(), None);
        assert_eq!(s.index().len(), 2);
    }
}

#[test]
fn corrupt_record_fails_load() {
    let mut store = ActionKV::open(Vec::new());
    store.insert(b"a", b"1");
    store.insert(b"b", b"2");
    let mut bytes = store.log().to_vec();
    let last = bytes.len() - 1;
    bytes[last] ^= 0xff;
    let mut s = ActionKV::open(bytes);
    assert!(matches!(s.load(), Err(KvError::ChecksumMismatch)));
    assert_eq!(s.index().len(), 0);
}

#[test]
fn get_at_reads_record() {
    let mut store = ActionKV::open(Vec::new());
    store.insert(b"a", b"1");
    let off = store.log().len() as u64;
    store.update(b"b", b"22");
    let kv = store.get_at(off).unwrap();
    assert_eq!(kv.key, b"b");
    assert_eq!(kv.value, b"22");
    assert!(matches!(store.get_at(off + 1), Err(_)));
    assert!(matches!(store.get_at(1000), Err(KvError::Truncated)));
}

#[test]
fn end_to_end_scenario() {
    let mut store = ActionKV::open(Vec::new());
    store.load().unwrap();
    store.insert(b"a", b"1");
    store.insert(b"b", b"2");
    store.update(b"a", b"3");
    assert_eq!(store.get(b"a").unwrap(), Some(b"3".to_vec()));
    assert_eq!(store.get(b"b").unwrap(), Some(b"2".to_vec()));
    assert_eq!(store.get(b"c").unwrap(), None);
    let again = reopen(&store);
    assert_eq!(again.get(b"a").unwrap(), Some(b"3".to_vec()));
    assert_eq!(again.get(b"b").unwrap(), Some(b"2".to_vec()));
    assert_eq!(again.get(b"c").unwrap(), None);
}

#[test]
fn clock_set_timeval() {
    let tv = Clock::set(Instant { secs: 1_624_463_257, nanos: 123_456_789 });
    assert_eq!(tv.tv_sec, 1_624_463_257);
    assert_eq!(tv.tv_usec, 123_456);
    let leap = Clock::set(Instant { secs: -5, nanos: 1_999_999_999 });
    assert_eq!(leap.tv_sec, -5);
    assert_eq!(leap.tv_usec, 1_999_999);
}
