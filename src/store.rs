//! The store: a log of records and an index over it.
use vstd::prelude::*;
use crate::codec::{
    decode, decode_extend, decode_record_at, decoded, key_at, record_bytes, record_end,
    record_fits, value_at, KeyValuePair, KvError,
};
use crate::index::Index;
use crate::log::LogFile;

verus! {

/// Replays `log` from `pos` on top of `m`: each record sets its key to its
/// offset, a later record overriding an earlier one. Replay stops where no
/// whole record is left (end of log, or a truncated tail) and fails on a
/// record whose checksum disagrees. On success gives the index and the
/// offset where replay stopped.
pub open spec fn scan(log: Seq<u8>, pos: int, m: Map<Seq<u8>, u64>) -> Result<
    (Map<Seq<u8>, u64>, int),
    KvError,
>
    decreases log.len() - pos,
{
    if !record_fits(log, pos) {
        Ok((m, pos))
    } else {
        match decoded(log, pos) {
            Ok((k, _v)) => scan(log, record_end(log, pos), m.insert(k, pos as u64)),
            Err(e) => Err(e),
        }
    }
}

/// The index that replaying the whole log from offset 0 builds, with the
/// offset where replay stopped.
pub open spec fn replay(log: Seq<u8>) -> Result<(Map<Seq<u8>, u64>, int), KvError> {
    scan(log, 0, Map::empty())
}

/// Replay of `log` succeeds and consumes it to the last byte.
pub open spec fn replays_whole(log: Seq<u8>) -> bool {
    replay(log) is Ok && replay(log)->Ok_0.1 == log.len()
}

/// Every offset in `m` is the offset of a valid record of its key.
pub open spec fn points_to_records(log: Seq<u8>, m: Map<Seq<u8>, u64>) -> bool {
    forall|k: Seq<u8>|
        #[trigger] m.contains_key(k) ==> decoded(log, m[k] as int) is Ok && key_at(log, m[k] as int) == k
}

/// The value that each indexed key has in the log.
pub open spec fn contents_of(log: Seq<u8>, m: Map<Seq<u8>, u64>) -> Map<Seq<u8>, Seq<u8>> {
    Map::new(|k: Seq<u8>| m.contains_key(k), |k: Seq<u8>| value_at(log, m[k] as int))
}

/// A log-structured key-value store over one log.
pub struct ActionKV {
    log: LogFile,
    index: Index,
}

impl ActionKV {
    /// The bytes of the log.
    pub closed spec fn log_bytes(&self) -> Seq<u8> {
        self.log@
    }

    /// The index: key to offset of its latest record.
    pub closed spec fn index_map(&self) -> Map<Seq<u8>, u64> {
        self.index@
    }

    /// The key-value map that the store serves.
    pub open spec fn contents(&self) -> Map<Seq<u8>, Seq<u8>> {
        contents_of(self.log_bytes(), self.index_map())
    }

    /// The index is consistent, and every entry of it names a valid record of
    /// its key.
    pub closed spec fn wf(&self) -> bool {
        &&& self.index.wf()
        &&& points_to_records(self.log@, self.index@)
    }

    /// A store over a log holding `contents`, with an empty index (not yet
    /// loaded).
    pub fn open(contents: Vec<u8>) -> (r: ActionKV)
        ensures
            r.wf(),
            r.log_bytes() == contents@,
            r.index_map() == Map::<Seq<u8>, u64>::empty(),
    {
        ActionKV { log: LogFile::new(contents), index: Index::new() }
    }

    /// The bytes of the log.
    pub fn log(&self) -> (r: &[u8])
        ensures
            r@ == self.log_bytes(),
    {
        self.log.as_bytes()
    }

    /// The index.
    pub fn index(&self) -> (r: &Index)
        ensures
            r@ == self.index_map(),
            r.wf() <== self.wf(),
    {
        &self.index
    }

    /// Rebuilds the index by replaying the log from offset 0: the index maps
    /// each key to its last record. A truncated tail ends the replay without
    /// error; a checksum mismatch fails it and leaves the index as it was.
    pub fn load(&mut self) -> (r: Result<(), KvError>)
        requires
            old(self).wf(),
        ensures
            final(self).wf(),
            final(self).log_bytes() == old(self).log_bytes(),
            match replay(old(self).log_bytes()) {
                Ok((m, _end)) => r is Ok && final(self).index_map() == m,
                Err(e) => r == Err::<(), KvError>(e) && final(self).index_map() == old(self).index_map(),
            },
    {
        let ghost log = self.log@;
        let mut fresh = Index::new();
        let mut pos: usize = 0;
        loop
            invariant
                self.log@ == log,
                self.wf(),
                self.index@ == old(self).index@,
                fresh.wf(),
                pos <= log.len(),
                scan(log, pos as int, fresh@) == replay(log),
                points_to_records(log, fresh@),
            ensures
                self.log@ == log,
                self.wf(),
                self.index@ == old(self).index@,
                fresh.wf(),
                points_to_records(log, fresh@),
                replay(log) == Ok::<(Map<Seq<u8>, u64>, int), KvError>((fresh@, pos as int)),
            decreases log.len() - pos,
        {
            match decode(self.log.as_bytes(), pos) {
                Ok((kv, next)) => {
                    proof {
                        decode_key_matches(log, pos as int);
                    }
                    fresh.set(kv.key.as_slice(), pos as u64);
                    pos = next;
                },
                Err(KvError::Truncated) => {
                    assert(scan(log, pos as int, fresh@) == Ok::<(Map<Seq<u8>, u64>, int), KvError>((fresh@, pos as int)));
                    break;
                },
                Err(e) => {
                    assert(scan(log, pos as int, fresh@) == Err::<(Map<Seq<u8>, u64>, int), KvError>(e));
                    return Err(e);
                },
            }
        }
        self.index = fresh;
        Ok(())
    }

    /// The record at `position`.
    pub fn get_at(&self, position: u64) -> (r: Result<KeyValuePair, KvError>)
        ensures
            match decoded(self.log_bytes(), position as int) {
                Ok((k, v)) => r is Ok && r->Ok_0.key@ == k && r->Ok_0.value@ == v,
                Err(e) => r == Err::<KeyValuePair, KvError>(e),
            },
    {
        match self.log.read_at(position) {
            Ok((kv, _next)) => Ok(kv),
            Err(e) => Err(e),
        }
    }

    /// The value of `key`: `None` for a key that the index does not hold,
    /// else the value of its latest record (empty for a deleted key).
    pub fn get(&self, key: &[u8]) -> (r: Result<Option<Vec<u8>>, KvError>)
        requires
            self.wf(),
        ensures
            r is Ok,
            !self.contents().contains_key(key@) ==> r == Ok::<Option<Vec<u8>>, KvError>(None),
            self.contents().contains_key(key@) ==> r->Ok_0 is Some && r->Ok_0->Some_0@ == self.contents()[key@],
    {
        match self.index.get(key) {
            None => Ok(None),
            Some(position) => {
                let kv = self.get_at(position)?;
                Ok(Some(kv.value))
            },
        }
    }

    /// Appends the record of `(key, value)` to the log, leaving the index as
    /// it is; returns the record's offset.
    fn insert_but_ignore_index(&mut self, key: &[u8], value: &[u8]) -> (r: u64)
        requires
            old(self).wf(),
            key@.len() <= u32::MAX,
            value@.len() <= u32::MAX,
            old(self).log_bytes().len() + 12 + key@.len() + value@.len() <= usize::MAX,
        ensures
            final(self).wf(),
            final(self).log_bytes() == old(self).log_bytes() + record_bytes(key@, value@),
            final(self).index_map() == old(self).index_map(),
            r == old(self).log_bytes().len(),
    {
        let record = crate::codec::encode(key, value);
        let r = self.log.append(record.as_slice());
        proof {
            let ghost old_log = old(self).log@;
            assert forall|k: Seq<u8>| #[trigger] self.index@.contains_key(k) implies decoded(self.log@, self.index@[k] as int) is Ok
                && key_at(self.log@, self.index@[k] as int) == k by {
                decode_extend(old_log, record@, self.index@[k] as int);
            }
        }
        r
    }

    /// Appends the record of `(key, value)` and points the index at it.
    pub fn insert(&mut self, key: &[u8], value: &[u8])
        requires
            old(self).wf(),
            key@.len() <= u32::MAX,
            value@.len() <= u32::MAX,
            old(self).log_bytes().len() + 12 + key@.len() + value@.len() <= usize::MAX,
        ensures
            final(self).wf(),
            final(self).log_bytes() == old(self).log_bytes() + record_bytes(key@, value@),
            final(self).index_map() == old(self).index_map().insert(key@, old(self).log_bytes().len() as u64),
    {
        let position = self.insert_but_ignore_index(key, value);
        proof {
            let rb = record_bytes(key@, value@);
            let pos = old(self).log@.len() as int;
            assert(self.log@.subrange(pos, pos + rb.len()) =~= rb);
            decode_record_at(self.log@, pos, key@, value@);
        }
        self.index.set(key, position);
    }

    /// Same as `insert`: the log has no update in place.
    pub fn update(&mut self, key: &[u8], value: &[u8])
        requires
            old(self).wf(),
            key@.len() <= u32::MAX,
            value@.len() <= u32::MAX,
            old(self).log_bytes().len() + 12 + key@.len() + value@.len() <= usize::MAX,
        ensures
            final(self).wf(),
            final(self).log_bytes() == old(self).log_bytes() + record_bytes(key@, value@),
            final(self).index_map() == old(self).index_map().insert(key@, old(self).log_bytes().len() as u64),
    {
        self.insert(key, value)
    }

    /// Inserts `key` with an empty value, the tombstone.
    pub fn delete(&mut self, key: &[u8])
        requires
            old(self).wf(),
            key@.len() <= u32::MAX,
            old(self).log_bytes().len() + 12 + key@.len() <= usize::MAX,
        ensures
            final(self).wf(),
            final(self).log_bytes() == old(self).log_bytes() + record_bytes(key@, Seq::<u8>::empty()),
            final(self).index_map() == old(self).index_map().insert(key@, old(self).log_bytes().len() as u64),
    {
        let empty: [u8; 0] = [];
        proof {
            assert(empty@ =~= Seq::<u8>::empty());
        }
        self.insert(key, empty.as_slice())
    }
}

/// A decoded record's key is the key that the spec reads at its offset.
proof fn decode_key_matches(log: Seq<u8>, pos: int)
    requires
        decoded(log, pos) is Ok,
    ensures
        record_fits(log, pos),
        decoded(log, pos)->Ok_0.0 == key_at(log, pos),
        decoded(log, pos)->Ok_0.1 == value_at(log, pos),
{
}

} // verus!
