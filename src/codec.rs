//! The record format: a 12-byte header (checksum, key length, value length,
//! each a little-endian `u32`) followed by the key and the value bytes.
use vstd::prelude::*;
use vstd::slice::slice_subrange;

verus! {

/// CRC-32 (IEEE) of a byte sequence.
pub uninterp spec fn crc32_ieee(data: Seq<u8>) -> u32;

/// Relies on `crc::crc32::checksum_ieee`: the IEEE CRC-32 of the bytes, a
/// function of the bytes alone.
#[verifier::external_body]
fn checksum(data: &[u8]) -> (r: u32)
    ensures
        r == crc32_ieee(data@),
{
    crc::crc32::checksum_ieee(data)
}

/// Why a record could not be decoded.
#[derive(Debug, Clone, Copy, PartialEq, Eq, Structural)]
pub enum KvError {
    /// Fewer bytes remain than the header declares (or than a header needs).
    Truncated,
    /// The checksum stored in the header disagrees with the body.
    ChecksumMismatch,
}

/// A decoded record: its key and its value.
#[derive(Debug)]
pub struct KeyValuePair {
    pub key: Vec<u8>,
    pub value: Vec<u8>,
}

pub const HEADER_LEN: usize = 12;

/// The four little-endian bytes of `n`.
pub open spec fn le32_bytes(n: u32) -> Seq<u8> {
    seq![(n & 0xff) as u8, ((n >> 8) & 0xff) as u8, ((n >> 16) & 0xff) as u8, ((n >> 24) & 0xff) as u8]
}

/// The `u32` whose little-endian bytes are `b0 b1 b2 b3`.
pub open spec fn le32_value(b0: u8, b1: u8, b2: u8, b3: u8) -> u32 {
    (b0 as u32) | ((b1 as u32) << 8u32) | ((b2 as u32) << 16u32) | ((b3 as u32) << 24u32)
}

/// The little-endian `u32` stored at `at` in `s`.
pub open spec fn u32_at(s: Seq<u8>, at: int) -> u32 {
    le32_value(s[at], s[at + 1], s[at + 2], s[at + 3])
}

/// A record with the given checksum field, key and value, as bytes.
pub open spec fn framed(sum: u32, key: Seq<u8>, value: Seq<u8>) -> Seq<u8> {
    le32_bytes(sum) + le32_bytes(key.len() as u32) + le32_bytes(value.len() as u32) + key + value
}

/// The encoding of `(key, value)`: its checksum covers `key ++ value`.
pub open spec fn record_bytes(key: Seq<u8>, value: Seq<u8>) -> Seq<u8> {
    framed(crc32_ieee(key + value), key, value)
}

pub open spec fn header_fits(s: Seq<u8>, pos: int) -> bool {
    0 <= pos && pos + 12 <= s.len()
}

pub open spec fn stored_sum_at(s: Seq<u8>, pos: int) -> u32 {
    u32_at(s, pos)
}

pub open spec fn key_len_at(s: Seq<u8>, pos: int) -> int {
    u32_at(s, pos + 4) as int
}

pub open spec fn val_len_at(s: Seq<u8>, pos: int) -> int {
    u32_at(s, pos + 8) as int
}

/// Where the record whose header starts at `pos` ends.
pub open spec fn record_end(s: Seq<u8>, pos: int) -> int {
    pos + 12 + key_len_at(s, pos) + val_len_at(s, pos)
}

/// The header and the whole body that it declares lie within `s`.
pub open spec fn record_fits(s: Seq<u8>, pos: int) -> bool {
    header_fits(s, pos) && record_end(s, pos) <= s.len()
}

/// The body (key ++ value) of the record at `pos`.
pub open spec fn body_at(s: Seq<u8>, pos: int) -> Seq<u8> {
    s.subrange(pos + 12, record_end(s, pos))
}

pub open spec fn key_at(s: Seq<u8>, pos: int) -> Seq<u8> {
    s.subrange(pos + 12, pos + 12 + key_len_at(s, pos))
}

pub open spec fn value_at(s: Seq<u8>, pos: int) -> Seq<u8> {
    s.subrange(pos + 12 + key_len_at(s, pos), record_end(s, pos))
}

/// What decoding the record at `pos` gives, when the body's checksum is `sum`.
pub open spec fn decoded_with(s: Seq<u8>, pos: int, sum: u32) -> Result<(Seq<u8>, Seq<u8>), KvError> {
    if !record_fits(s, pos) {
        Err(KvError::Truncated)
    } else if sum != stored_sum_at(s, pos) {
        Err(KvError::ChecksumMismatch)
    } else {
        Ok((key_at(s, pos), value_at(s, pos)))
    }
}

/// What decoding the record at `pos` gives.
pub open spec fn decoded(s: Seq<u8>, pos: int) -> Result<(Seq<u8>, Seq<u8>), KvError> {
    decoded_with(s, pos, crc32_ieee(body_at(s, pos)))
}

fn push_le32(out: &mut Vec<u8>, n: u32)
    ensures
        final(out)@ == old(out)@ + le32_bytes(n),
{
    out.push((n & 0xff) as u8);
    out.push(((n >> 8) & 0xff) as u8);
    out.push(((n >> 16) & 0xff) as u8);
    out.push(((n >> 24) & 0xff) as u8);
    assert(final(out)@ =~= old(out)@ + le32_bytes(n));
}

fn push_all(out: &mut Vec<u8>, src: &[u8])
    ensures
        final(out)@ == old(out)@ + src@,
{
    let mut i: usize = 0;
    while i < src.len()
        invariant
            i <= src@.len(),
            out@ == old(out)@ + src@.subrange(0, i as int),
        decreases src@.len() - i,
    {
        out.push(src[i]);
        i = i + 1;
        assert(out@ =~= old(out)@ + src@.subrange(0, i as int));
    }
    assert(src@.subrange(0, i as int) =~= src@);
}

fn read_le32(s: &[u8], at: usize) -> (r: u32)
    requires
        at + 4 <= s@.len(),
    ensures
        r == u32_at(s@, at as int),
{
    (s[at] as u32) | ((s[at + 1] as u32) << 8u32) | ((s[at + 2] as u32) << 16u32) | ((s[at + 3] as u32) << 24u32)
}

/// Frames `key` and `value` with the checksum field `sum`.
pub fn encode_with_checksum(key: &[u8], value: &[u8], sum: u32) -> (r: Vec<u8>)
    requires
        key@.len() <= u32::MAX,
        value@.len() <= u32::MAX,
    ensures
        r@ == framed(sum, key@, value@),
{
    let mut out: Vec<u8> = Vec::new();
    push_le32(&mut out, sum);
    push_le32(&mut out, key.len() as u32);
    push_le32(&mut out, value.len() as u32);
    push_all(&mut out, key);
    push_all(&mut out, value);
    out
}

/// Encodes one record: `crc32(key ++ value) ++ len(key) ++ len(value) ++ key ++ value`.
pub fn encode(key: &[u8], value: &[u8]) -> (r: Vec<u8>)
    requires
        key@.len() <= u32::MAX,
        value@.len() <= u32::MAX,
        key@.len() + value@.len() <= usize::MAX,
    ensures
        r@ == record_bytes(key@, value@),
{
    let mut body: Vec<u8> = Vec::new();
    push_all(&mut body, key);
    push_all(&mut body, value);
    let sum = checksum(body.as_slice());
    encode_with_checksum(key, value, sum)
}

/// Copies `s[lo..hi]`.
fn copy_range(s: &[u8], lo: usize, hi: usize) -> (r: Vec<u8>)
    requires
        lo <= hi <= s@.len(),
    ensures
        r@ == s@.subrange(lo as int, hi as int),
{
    let mut out: Vec<u8> = Vec::new();
    let mut i: usize = lo;
    while i < hi
        invariant
            lo <= i <= hi <= s@.len(),
            out@ == s@.subrange(lo as int, i as int),
        decreases hi - i,
    {
        out.push(s[i]);
        i = i + 1;
        assert(out@ =~= s@.subrange(lo as int, i as int));
    }
    out
}

/// The extent of the record whose header starts at `pos`: the end of its
/// header and the end of its key and of its body, or `Truncated`.
fn frame(source: &[u8], pos: usize) -> (r: Result<(usize, usize, usize), KvError>)
    ensures
        match r {
            Ok((h, k, e)) => record_fits(source@, pos as int) && h == pos + 12 && k == pos + 12
                + key_len_at(source@, pos as int) && e == record_end(source@, pos as int),
            Err(err) => !record_fits(source@, pos as int) && err == KvError::Truncated,
        },
{
    let len = source.len();
    if pos > len || len - pos < HEADER_LEN {
        return Err(KvError::Truncated);
    }
    let klen = read_le32(source, pos + 4) as usize;
    let vlen = read_le32(source, pos + 8) as usize;
    let room = len - pos - HEADER_LEN;
    if klen > room || vlen > room - klen {
        return Err(KvError::Truncated);
    }
    Ok((pos + HEADER_LEN, pos + HEADER_LEN + klen, pos + HEADER_LEN + klen + vlen))
}

/// Decodes the record at `pos`, given `sum`, the checksum of its body. On
/// success also returns the offset just past the record.
pub fn decode_with_checksum(source: &[u8], pos: usize, sum: u32) -> (r: Result<(KeyValuePair, usize), KvError>)
    ensures
        match decoded_with(source@, pos as int, sum) {
            Ok((k, v)) => r is Ok && r->Ok_0.0.key@ == k && r->Ok_0.0.value@ == v
                && r->Ok_0.1 == record_end(source@, pos as int),
            Err(e) => r == Err::<(KeyValuePair, usize), KvError>(e),
        },
{
    match frame(source, pos) {
        Err(e) => Err(e),
        Ok((h, k, e)) => {
            if sum != read_le32(source, pos) {
                Err(KvError::ChecksumMismatch)
            } else {
                let key = copy_range(source, h, k);
                let value = copy_range(source, k, e);
                Ok((KeyValuePair { key, value }, e))
            }
        },
    }
}

/// Decodes the record at `pos`, consuming exactly its header and declared
/// body; on success also returns the offset just past it.
pub fn decode(source: &[u8], pos: usize) -> (r: Result<(KeyValuePair, usize), KvError>)
    ensures
        match decoded(source@, pos as int) {
            Ok((k, v)) => r is Ok && r->Ok_0.0.key@ == k && r->Ok_0.0.value@ == v
                && r->Ok_0.1 == record_end(source@, pos as int),
            Err(e) => r == Err::<(KeyValuePair, usize), KvError>(e),
        },
{
    match frame(source, pos) {
        Err(e) => Err(e),
        Ok((h, _k, e)) => {
            let sum = checksum(slice_subrange(source, h, e));
            decode_with_checksum(source, pos, sum)
        },
    }
}


proof fn lemma_le32(n: u32)
    ensures
        le32_value((n & 0xff) as u8, ((n >> 8) & 0xff) as u8, ((n >> 16) & 0xff) as u8, ((n >> 24) & 0xff) as u8) == n,
{
    assert(((((n & 0xff) as u8) as u32) | (((((n >> 8) & 0xff) as u8) as u32) << 8u32) | (((((n >> 16) & 0xff) as u8) as u32) << 16u32)
        | (((((n >> 24) & 0xff) as u8) as u32) << 24u32)) == n) by (bit_vector);
}

/// Four bytes that encode `n` read back as `n`.
pub proof fn lemma_u32_at_le32(s: Seq<u8>, at: int, n: u32)
    requires
        0 <= at,
        at + 4 <= s.len(),
        s.subrange(at, at + 4) == le32_bytes(n),
    ensures
        u32_at(s, at) == n,
{
    assert(s[at] == s.subrange(at, at + 4)[0]);
    assert(s[at + 1] == s.subrange(at, at + 4)[1]);
    assert(s[at + 2] == s.subrange(at, at + 4)[2]);
    assert(s[at + 3] == s.subrange(at, at + 4)[3]);
    lemma_le32(n);
}

/// Wherever the encoding of `(key, value)` stands in a byte sequence, decoding
/// at its first byte gives back `(key, value)` and ends just past it.
pub proof fn decode_record_at(s: Seq<u8>, pos: int, key: Seq<u8>, value: Seq<u8>)
    requires
        key.len() <= u32::MAX,
        value.len() <= u32::MAX,
        0 <= pos,
        pos + record_bytes(key, value).len() <= s.len(),
        s.subrange(pos, pos + record_bytes(key, value).len()) == record_bytes(key, value),
    ensures
        record_fits(s, pos),
        record_end(s, pos) == pos + record_bytes(key, value).len(),
        key_at(s, pos) == key,
        value_at(s, pos) == value,
        body_at(s, pos) == key + value,
        decoded(s, pos) == Ok::<(Seq<u8>, Seq<u8>), KvError>((key, value)),
{
    let rb = record_bytes(key, value);
    let sum = crc32_ieee(key + value);
    assert(rb.len() == 12 + key.len() + value.len());
    assert(s.subrange(pos, pos + 4) =~= rb.subrange(0, 4));
    assert(rb.subrange(0, 4) =~= le32_bytes(sum));
    assert(s.subrange(pos + 4, pos + 8) =~= rb.subrange(4, 8));
    assert(rb.subrange(4, 8) =~= le32_bytes(key.len() as u32));
    assert(s.subrange(pos + 8, pos + 12) =~= rb.subrange(8, 12));
    assert(rb.subrange(8, 12) =~= le32_bytes(value.len() as u32));
    lemma_u32_at_le32(s, pos, sum);
    lemma_u32_at_le32(s, pos + 4, key.len() as u32);
    lemma_u32_at_le32(s, pos + 8, value.len() as u32);
    assert(key_at(s, pos) =~= rb.subrange(12, 12 + key.len() as int));
    assert(rb.subrange(12, 12 + key.len() as int) =~= key);
    assert(value_at(s, pos) =~= rb.subrange(12 + key.len() as int, rb.len() as int));
    assert(rb.subrange(12 + key.len() as int, rb.len() as int) =~= value);
    assert(body_at(s, pos) =~= key + value);
}

/// Round trip: decoding the encoding of any key and value (empty ones
/// included) gives them back.
pub proof fn round_trip(key: Seq<u8>, value: Seq<u8>)
    requires
        key.len() <= u32::MAX,
        value.len() <= u32::MAX,
    ensures
        decoded(record_bytes(key, value), 0) == Ok::<(Seq<u8>, Seq<u8>), KvError>((key, value)),
{
    let rb = record_bytes(key, value);
    assert(rb.subrange(0, rb.len() as int) =~= rb);
    decode_record_at(rb, 0, key, value);
}

/// A record that lies wholly within `s` decodes the same way after more
/// bytes are appended to `s`.
pub proof fn decode_extend(s: Seq<u8>, t: Seq<u8>, pos: int)
    requires
        record_fits(s, pos),
    ensures
        record_fits(s + t, pos),
        record_end(s + t, pos) == record_end(s, pos),
        key_at(s + t, pos) == key_at(s, pos),
        decoded(s + t, pos) == decoded(s, pos),
{
    let st = s + t;
    assert(st[pos] == s[pos] && st[pos + 1] == s[pos + 1] && st[pos + 2] == s[pos + 2] && st[pos + 3] == s[pos + 3]);
    assert(st[pos + 4] == s[pos + 4] && st[pos + 5] == s[pos + 5] && st[pos + 6] == s[pos + 6] && st[pos + 7] == s[pos + 7]);
    assert(st[pos + 8] == s[pos + 8] && st[pos + 9] == s[pos + 9] && st[pos + 10] == s[pos + 10] && st[pos + 11] == s[pos + 11]);
    assert(body_at(st, pos) =~= body_at(s, pos));
    assert(key_at(st, pos) =~= key_at(s, pos));
    assert(value_at(st, pos) =~= value_at(s, pos));
}

} // verus!
