//! Properties of the store that relate several operations.
use vstd::prelude::*;
use crate::codec::{
    crc32_ieee, decode_extend, le32_bytes, lemma_u32_at_le32, decode_record_at, decoded, record_bytes, record_end, record_fits,
    KvError,
};
use crate::store::{contents_of, replay, replays_whole, scan, ActionKV};

verus! {

/// Replaying `s + t` from `pos` passes over the records of `s` as replaying
/// `s` does, when that replay consumes `s` to its last byte.
proof fn lemma_scan_extend(s: Seq<u8>, t: Seq<u8>, pos: int, m: Map<Seq<u8>, u64>)
    requires
        0 <= pos <= s.len(),
        scan(s, pos, m) is Ok,
        scan(s, pos, m)->Ok_0.1 == s.len(),
    ensures
        scan(s + t, pos, m) == scan(s + t, s.len() as int, scan(s, pos, m)->Ok_0.0),
    decreases s.len() - pos,
{
    if record_fits(s, pos) {
        decode_extend(s, t, pos);
        let k = decoded(s, pos)->Ok_0.0;
        lemma_scan_extend(s, t, record_end(s, pos), m.insert(k, pos as u64));
    }
}

/// Replaying a log that was replayed whole and then had one record appended
/// gives the earlier index with the new record's key pointing at it.
pub proof fn replay_after_append(log: Seq<u8>, key: Seq<u8>, value: Seq<u8>)
    requires
        replays_whole(log),
        key.len() <= u32::MAX,
        value.len() <= u32::MAX,
    ensures
        replays_whole(log + record_bytes(key, value)),
        replay(log + record_bytes(key, value))->Ok_0.0 == replay(log)->Ok_0.0.insert(key, log.len() as u64),
{
    let rb = record_bytes(key, value);
    let s = log + rb;
    let p = log.len() as int;
    lemma_scan_extend(log, rb, 0, Map::empty());
    assert(s.subrange(p, p + rb.len()) =~= rb);
    decode_record_at(s, p, key, value);
    let m = replay(log)->Ok_0.0.insert(key, p as u64);
    assert(scan(s, s.len() as int, m) == Ok::<(Map<Seq<u8>, u64>, int), KvError>((m, s.len() as int)));
}

/// Last write wins: after `key` is written with `v1` and then with `v2`, the
/// store serves `v2`; and where the log replayed whole before the writes, so
/// does a store reopened on the log and loaded afresh.
pub proof fn last_write_wins(
    s0: ActionKV,
    s1: ActionKV,
    s2: ActionKV,
    key: Seq<u8>,
    v1: Seq<u8>,
    v2: Seq<u8>,
)
    requires
        key.len() <= u32::MAX,
        v1.len() <= u32::MAX,
        v2.len() <= u32::MAX,
        s1.log_bytes() == s0.log_bytes() + record_bytes(key, v1),
        s1.index_map() == s0.index_map().insert(key, s0.log_bytes().len() as u64),
        s2.log_bytes() == s1.log_bytes() + record_bytes(key, v2),
        s2.index_map() == s1.index_map().insert(key, s1.log_bytes().len() as u64),
        s2.log_bytes().len() <= u64::MAX,
    ensures
        s2.contents().contains_key(key),
        s2.contents()[key] == v2,
        replays_whole(s0.log_bytes()) ==> {
            &&& replays_whole(s2.log_bytes())
            &&& contents_of(s2.log_bytes(), replay(s2.log_bytes())->Ok_0.0).contains_key(key)
            &&& contents_of(s2.log_bytes(), replay(s2.log_bytes())->Ok_0.0)[key] == v2
        },
{
    let rb = record_bytes(key, v2);
    let p = s1.log_bytes().len() as int;
    assert(s2.log_bytes().subrange(p, p + rb.len()) =~= rb);
    decode_record_at(s2.log_bytes(), p, key, v2);
    if replays_whole(s0.log_bytes()) {
        replay_after_append(s0.log_bytes(), key, v1);
        replay_after_append(s1.log_bytes(), key, v2);
    }
}

/// Tombstones: after `delete(key)` the store serves an empty value for
/// `key`, while a key that was never indexed is still not found.
pub proof fn tombstone(s0: ActionKV, s1: ActionKV, key: Seq<u8>, other: Seq<u8>)
    requires
        key.len() <= u32::MAX,
        s1.log_bytes() == s0.log_bytes() + record_bytes(key, Seq::<u8>::empty()),
        s1.index_map() == s0.index_map().insert(key, s0.log_bytes().len() as u64),
        s1.log_bytes().len() <= u64::MAX,
    ensures
        s1.contents().contains_key(key),
        s1.contents()[key] == Seq::<u8>::empty(),
        !s0.index_map().contains_key(other) && other != key ==> !s1.contents().contains_key(other),
{
    let rb = record_bytes(key, Seq::<u8>::empty());
    let p = s0.log_bytes().len() as int;
    assert(s1.log_bytes().subrange(p, p + rb.len()) =~= rb);
    decode_record_at(s1.log_bytes(), p, key, Seq::<u8>::empty());
}

/// Loading twice in a row on an unchanged log gives the same index both
/// times.
pub proof fn load_is_idempotent(s0: ActionKV, s1: ActionKV, s2: ActionKV)
    requires
        replay(s0.log_bytes()) is Ok,
        s1.log_bytes() == s0.log_bytes(),
        s1.index_map() == replay(s0.log_bytes())->Ok_0.0,
        s2.log_bytes() == s1.log_bytes(),
        s2.index_map() == replay(s1.log_bytes())->Ok_0.0,
    ensures
        s2.index_map() == s1.index_map(),
        s2.contents() == s1.contents(),
{
}

/// A truncated tail is ignored: when a log that replays whole is followed by
/// bytes that do not hold a whole record, replay still succeeds, indexes
/// every record before them, and stops where they begin.
pub proof fn truncated_tail_ignored(log: Seq<u8>, tail: Seq<u8>)
    requires
        replays_whole(log),
        !record_fits(log + tail, log.len() as int),
    ensures
        replay(log + tail) == Ok::<(Map<Seq<u8>, u64>, int), KvError>(
            (replay(log)->Ok_0.0, log.len() as int),
        ),
{
    lemma_scan_extend(log, tail, 0, Map::empty());
}

/// A record cut short is ignored: a log that replays whole, followed by a
/// proper prefix of a record, replays to the same index and stops where the
/// cut record begins.
pub proof fn truncated_record_ignored(log: Seq<u8>, key: Seq<u8>, value: Seq<u8>, cut: int)
    requires
        replays_whole(log),
        key.len() <= u32::MAX,
        value.len() <= u32::MAX,
        0 <= cut < record_bytes(key, value).len(),
    ensures
        replay(log + record_bytes(key, value).subrange(0, cut)) == Ok::<(Map<Seq<u8>, u64>, int), KvError>(
            (replay(log)->Ok_0.0, log.len() as int),
        ),
{
    let rb = record_bytes(key, value);
    let t = rb.subrange(0, cut);
    let s = log + t;
    let p = log.len() as int;
    if cut >= 12 {
        assert(s.subrange(p + 4, p + 8) =~= rb.subrange(4, 8));
        assert(rb.subrange(4, 8) =~= le32_bytes(key.len() as u32));
        lemma_u32_at_le32(s, p + 4, key.len() as u32);
        assert(s.subrange(p + 8, p + 12) =~= rb.subrange(8, 12));
        assert(rb.subrange(8, 12) =~= le32_bytes(value.len() as u32));
        lemma_u32_at_le32(s, p + 8, value.len() as u32);
    }
    truncated_tail_ignored(log, t);
}

/// A changed byte in a record's body is reported as `ChecksumMismatch`
/// whenever the changed body's CRC-32 differs from the original body's.
pub proof fn changed_body_fails_checksum(key: Seq<u8>, value: Seq<u8>, i: int, b: u8)
    requires
        key.len() <= u32::MAX,
        value.len() <= u32::MAX,
        0 <= i < key.len() + value.len(),
        crc32_ieee((key + value).update(i, b)) != crc32_ieee(key + value),
    ensures
        decoded(record_bytes(key, value).update(12 + i, b), 0) == Err::<(Seq<u8>, Seq<u8>), KvError>(
            KvError::ChecksumMismatch,
        ),
{
    let rb = record_bytes(key, value);
    let f = rb.update(12 + i, b);
    assert(rb.subrange(0, rb.len() as int) =~= rb);
    decode_record_at(rb, 0, key, value);
    assert(f.subrange(0, 12) =~= rb.subrange(0, 12));
    assert(f[0] == rb[0] && f[1] == rb[1] && f[2] == rb[2] && f[3] == rb[3]);
    assert(f[4] == rb[4] && f[5] == rb[5] && f[6] == rb[6] && f[7] == rb[7]);
    assert(f[8] == rb[8] && f[9] == rb[9] && f[10] == rb[10] && f[11] == rb[11]);
    assert(record_end(f, 0) == record_end(rb, 0));
    assert(f.subrange(12, record_end(f, 0)) =~= (key + value).update(i, b));
}

} // verus!
