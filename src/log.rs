//! The log: an append-only byte sequence of records starting at offset 0.
use vstd::prelude::*;
use crate::codec::{decode, decoded, record_end, KeyValuePair, KvError};

verus! {

/// The bytes of the log, in the order they were written.
pub struct LogFile {
    bytes: Vec<u8>,
}

impl LogFile {
    pub closed spec fn view(&self) -> Seq<u8> {
        self.bytes@
    }

    /// A log holding `contents` (what an existing file already holds).
    pub fn new(contents: Vec<u8>) -> (r: LogFile)
        ensures
            r@ == contents@,
    {
        LogFile { bytes: contents }
    }

    /// The number of bytes in the log: the offset of the next append.
    pub fn len(&self) -> (r: usize)
        ensures
            r == self@.len(),
    {
        self.bytes.len()
    }

    /// The bytes of the log.
    pub fn as_bytes(&self) -> (r: &[u8])
        ensures
            r@ == self@,
    {
        self.bytes.as_slice()
    }

    /// Writes `data` at the end of the log; returns the offset where it begins.
    pub fn append(&mut self, data: &[u8]) -> (r: u64)
        requires
            old(self)@.len() + data@.len() <= usize::MAX,
        ensures
            final(self)@ == old(self)@ + data@,
            r == old(self)@.len(),
    {
        let start = self.bytes.len() as u64;
        let mut i: usize = 0;
        while i < data.len()
            invariant
                i <= data@.len(),
                self.bytes@ == old(self)@ + data@.subrange(0, i as int),
            decreases data@.len() - i,
        {
            self.bytes.push(data[i]);
            i = i + 1;
            assert(self.bytes@ =~= old(self)@ + data@.subrange(0, i as int));
        }
        assert(data@.subrange(0, i as int) =~= data@);
        start
    }

    /// Decodes the record at `offset`; on success also returns the offset
    /// just past it.
    pub fn read_at(&self, offset: u64) -> (r: Result<(KeyValuePair, u64), KvError>)
        ensures
            match decoded(self@, offset as int) {
                Ok((k, v)) => r is Ok && r->Ok_0.0.key@ == k && r->Ok_0.0.value@ == v
                    && r->Ok_0.1 == record_end(self@, offset as int),
                Err(e) => r == Err::<(KeyValuePair, u64), KvError>(e),
            },
    {
        if offset > self.bytes.len() as u64 {
            return Err(KvError::Truncated);
        }
        match decode(self.bytes.as_slice(), offset as usize) {
            Ok((kv, next)) => Ok((kv, next as u64)),
            Err(e) => Err(e),
        }
    }
}

} // verus!
