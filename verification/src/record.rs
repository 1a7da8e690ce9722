//! The record codec: how one key-value pair is laid out in the log.
//!
//! A record is a header of three little-endian 32-bit integers (checksum,
//! key length, value length) followed by the key bytes and the value bytes.
//! The checksum covers the key followed by the value.

use crate::bytes::append_bytes;
use crate::checksum::{checksum_ieee, crc32_ieee};
use crate::endian::{
    le_bytes, le_u32, lemma_le_bytes_of_value, lemma_le_round_trip, read_u32_le, write_u32_le,
};
use vstd::prelude::*;
use vstd::slice::{slice_subrange, slice_to_vec};

verus! {

/// The number of bytes in a record header.
pub const HEADER_LEN: usize = 12;

/// A key and the value stored under it.
#[derive(Debug, Clone, PartialEq, Eq)]
pub struct KeyValuePair {
    pub key: Vec<u8>,
    pub value: Vec<u8>,
}

/// Why a record could not be read.
#[derive(Debug, Clone, Copy, PartialEq, Eq, Structural)]
pub enum RecordError {
    /// Fewer bytes remain than a header, or than the header declares.
    UnexpectedEndOfStream,
    /// The checksum computed over the key and value differs from the stored one.
    CorruptRecord { computed: u32, stored: u32 },
}

/// A record as it is read, before its checksum is verified.
#[derive(Debug, Clone, PartialEq, Eq)]
pub struct RawRecord {
    /// The checksum that the header holds.
    pub stored: u32,
    /// The key length that the header holds.
    pub key_len: usize,
    /// The key bytes followed by the value bytes.
    pub data: Vec<u8>,
    /// The position that follows the record.
    pub next: usize,
}

/// The bytes of a record with the given checksum field.
pub open spec fn frame(checksum: u32, key: Seq<u8>, value: Seq<u8>) -> Seq<u8> {
    le_bytes(checksum) + le_bytes(key.len() as u32) + le_bytes(value.len() as u32) + key + value
}

/// The bytes of the record that stores `value` under `key`.
pub open spec fn encode_spec(key: Seq<u8>, value: Seq<u8>) -> Seq<u8> {
    frame(crc32_ieee(key + value), key, value)
}

/// A header and the bytes it declares, found at some position of a log.
pub struct Frame {
    pub stored: u32,
    pub key: Seq<u8>,
    pub value: Seq<u8>,
    pub next: int,
}

/// The frame that starts at `pos`, if the bytes from there hold a whole
/// header and as many further bytes as the header declares.
pub open spec fn frame_at(bytes: Seq<u8>, pos: int) -> Option<Frame> {
    if pos < 0 || pos + HEADER_LEN > bytes.len() {
        None
    } else {
        let key_len = le_u32(bytes.subrange(pos + 4, pos + 8)) as int;
        let value_len = le_u32(bytes.subrange(pos + 8, pos + 12)) as int;
        let key_start = pos + HEADER_LEN;
        let value_start = key_start + key_len;
        let next = value_start + value_len;
        if next > bytes.len() {
            None
        } else {
            Some(
                Frame {
                    stored: le_u32(bytes.subrange(pos, pos + 4)),
                    key: bytes.subrange(key_start, value_start),
                    value: bytes.subrange(value_start, next),
                    next,
                },
            )
        }
    }
}

/// What decoding at some position of a log yields.
pub enum Decoded {
    /// A record with a matching checksum; the following record starts at `next`.
    Record { key: Seq<u8>, value: Seq<u8>, next: int },
    /// No whole record remains.
    EndOfStream,
    /// A whole frame whose checksum does not match.
    Corrupt { computed: u32, stored: u32 },
}

/// The outcome of verifying a frame against the checksum computed over its
/// key and value.
pub open spec fn verify_spec(f: Frame, computed: u32) -> Decoded {
    if computed == f.stored {
        Decoded::Record { key: f.key, value: f.value, next: f.next }
    } else {
        Decoded::Corrupt { computed, stored: f.stored }
    }
}

/// The outcome of decoding one record at `pos`.
pub open spec fn decode_spec(bytes: Seq<u8>, pos: int) -> Decoded {
    match frame_at(bytes, pos) {
        None => Decoded::EndOfStream,
        Some(f) => verify_spec(f, crc32_ieee(f.key + f.value)),
    }
}

/// A record lies within the bytes it is decoded from, and its extent follows
/// from the two lengths of its header alone: the next record begins where
/// its value ends.
pub proof fn lemma_record_bounds(bytes: Seq<u8>, pos: int)
    requires
        decode_spec(bytes, pos) is Record,
    ensures
        0 <= pos,
        pos + HEADER_LEN <= decode_spec(bytes, pos)->next <= bytes.len(),
        decode_spec(bytes, pos)->next == pos + HEADER_LEN + decode_spec(bytes, pos)->key.len()
            + decode_spec(bytes, pos)->value.len(),
{
}

/// Where less than a header remains, decoding reports the end of the stream.
pub proof fn lemma_decode_past_end(bytes: Seq<u8>, pos: int)
    requires
        pos + HEADER_LEN > bytes.len(),
    ensures
        decode_spec(bytes, pos) is EndOfStream,
{
}

/// A record that decodes in a log decodes to the same record after the log
/// has grown.
pub proof fn lemma_decode_stable(log: Seq<u8>, more: Seq<u8>, pos: int)
    requires
        decode_spec(log, pos) is Record,
    ensures
        decode_spec(log + more, pos) == decode_spec(log, pos),
{
    let grown = log + more;
    let f = frame_at(log, pos)->0;
    let value_start = pos + HEADER_LEN + f.key.len();
    assert(grown.subrange(pos + HEADER_LEN, value_start) == f.key);
    assert(grown.subrange(value_start, f.next) == f.value);
}

/// The record appended to a log decodes, at the old end, to the pair that
/// was encoded, and ends where the grown log ends.
pub proof fn lemma_decode_appended(log: Seq<u8>, key: Seq<u8>, value: Seq<u8>)
    requires
        key.len() <= u32::MAX,
        value.len() <= u32::MAX,
    ensures
        decode_spec(log + encode_spec(key, value), log.len() as int) == (Decoded::Record {
            key,
            value,
            next: (log.len() + encode_spec(key, value).len()) as int,
        }),
        encode_spec(key, value).len() == HEADER_LEN + key.len() + value.len(),
{
    let grown = log + encode_spec(key, value);
    let key_start = log.len() + HEADER_LEN;
    let value_start = key_start + key.len();
    lemma_le_round_trip(crc32_ieee(key + value));
    lemma_le_round_trip(key.len() as u32);
    lemma_le_round_trip(value.len() as u32);
    assert(grown.subrange(key_start, value_start) == key);
    assert(grown.subrange(value_start, value_start + value.len()) == value);
}

/// Decoding the encoding of a pair gives the pair back and consumes the
/// whole encoding.
pub proof fn lemma_round_trip(key: Seq<u8>, value: Seq<u8>)
    requires
        key.len() <= u32::MAX,
        value.len() <= u32::MAX,
    ensures
        decode_spec(encode_spec(key, value), 0) == (Decoded::Record {
            key,
            value,
            next: encode_spec(key, value).len() as int,
        }),
{
    lemma_decode_appended(Seq::empty(), key, value);
}

/// Bytes that decode to a pair are, up to the end of the record, the
/// encoding of that pair and nothing else.
pub proof fn lemma_decodes_only_encodings(bytes: Seq<u8>, pos: int)
    requires
        decode_spec(bytes, pos) is Record,
    ensures
        bytes.subrange(pos, decode_spec(bytes, pos)->next) == encode_spec(
            decode_spec(bytes, pos)->key,
            decode_spec(bytes, pos)->value,
        ),
{
    lemma_le_bytes_of_value(bytes.subrange(pos, pos + 4));
    lemma_le_bytes_of_value(bytes.subrange(pos + 4, pos + 8));
    lemma_le_bytes_of_value(bytes.subrange(pos + 8, pos + 12));
}

/// Bytes that differ from a record somewhere in its extent never decode to
/// that record: damage changes the outcome.
pub proof fn lemma_damage_changes_outcome(bytes: Seq<u8>, damaged: Seq<u8>, pos: int)
    requires
        decode_spec(bytes, pos) is Record,
        damaged.subrange(pos, decode_spec(bytes, pos)->next) != bytes.subrange(
            pos,
            decode_spec(bytes, pos)->next,
        ),
    ensures
        decode_spec(damaged, pos) != decode_spec(bytes, pos),
{
    if decode_spec(damaged, pos) == decode_spec(bytes, pos) {
        lemma_decodes_only_encodings(bytes, pos);
        lemma_decodes_only_encodings(damaged, pos);
    }
}

/// A record whose stored checksum has been changed, and nothing else, is
/// reported as corrupt.
pub proof fn lemma_checksum_damage_detected(bytes: Seq<u8>, damaged: Seq<u8>, pos: int)
    requires
        decode_spec(bytes, pos) is Record,
        damaged.len() == bytes.len(),
        forall|i: int| 0 <= i < bytes.len() && !(pos <= i < pos + 4) ==> damaged[i] == bytes[i],
        damaged.subrange(pos, pos + 4) != bytes.subrange(pos, pos + 4),
    ensures
        decode_spec(damaged, pos) == (Decoded::Corrupt {
            computed: crc32_ieee(decode_spec(bytes, pos)->key + decode_spec(bytes, pos)->value),
            stored: le_u32(damaged.subrange(pos, pos + 4)),
        }),
{
    let f = frame_at(bytes, pos)->0;
    let value_start = pos + HEADER_LEN + f.key.len();
    assert(damaged.subrange(pos + HEADER_LEN, value_start) == f.key);
    assert(damaged.subrange(value_start, f.next) == f.value);
    lemma_le_bytes_of_value(damaged.subrange(pos, pos + 4));
    lemma_le_bytes_of_value(bytes.subrange(pos, pos + 4));
}

/// A record whose key or value bytes have been changed, and nothing else, is
/// reported as corrupt, provided that the checksum tells the changed bytes
/// from the ones it was computed over.
pub proof fn lemma_payload_damage_detected(bytes: Seq<u8>, damaged: Seq<u8>, pos: int)
    requires
        decode_spec(bytes, pos) is Record,
        damaged.len() == bytes.len(),
        forall|i: int|
            0 <= i < bytes.len() && !(pos + HEADER_LEN <= i < decode_spec(bytes, pos)->next)
                ==> damaged[i] == bytes[i],
        crc32_ieee(damaged.subrange(pos + HEADER_LEN, decode_spec(bytes, pos)->next))
            != crc32_ieee(decode_spec(bytes, pos)->key + decode_spec(bytes, pos)->value),
    ensures
        decode_spec(damaged, pos) == (Decoded::Corrupt {
            computed: crc32_ieee(damaged.subrange(pos + HEADER_LEN, decode_spec(bytes, pos)->next)),
            stored: crc32_ieee(decode_spec(bytes, pos)->key + decode_spec(bytes, pos)->value),
        }),
{
    let f = frame_at(bytes, pos)->0;
    let value_start = pos + HEADER_LEN + f.key.len();
    assert(damaged.subrange(pos + HEADER_LEN, value_start) + damaged.subrange(value_start, f.next)
        == damaged.subrange(pos + HEADER_LEN, f.next));
}

/// A record whose key length or value length has been changed, and nothing
/// else, is reported as corrupt, provided that the changed lengths still
/// frame bytes that are there and that the checksum tells those bytes from
/// the ones it was computed over. Where the changed lengths reach beyond the
/// bytes, decoding reports the end of the stream instead.
pub proof fn lemma_length_damage_detected(bytes: Seq<u8>, damaged: Seq<u8>, pos: int)
    requires
        decode_spec(bytes, pos) is Record,
        damaged.len() == bytes.len(),
        forall|i: int|
            0 <= i < bytes.len() && !(pos + 4 <= i < pos + HEADER_LEN) ==> damaged[i] == bytes[i],
    ensures
        match frame_at(damaged, pos) {
            None => decode_spec(damaged, pos) is EndOfStream,
            Some(f) => f.stored == crc32_ieee(
                decode_spec(bytes, pos)->key + decode_spec(bytes, pos)->value,
            ) && (crc32_ieee(f.key + f.value) != f.stored ==> decode_spec(damaged, pos) == (
            Decoded::Corrupt { computed: crc32_ieee(f.key + f.value), stored: f.stored })),
        },
{
    assert(damaged.subrange(pos, pos + 4) == bytes.subrange(pos, pos + 4));
}

/// A record cut short decodes to the end of the stream, whatever precedes it.
pub proof fn lemma_truncated_record(before: Seq<u8>, key: Seq<u8>, value: Seq<u8>, kept: int)
    requires
        key.len() <= u32::MAX,
        value.len() <= u32::MAX,
        0 <= kept < encode_spec(key, value).len(),
    ensures
        decode_spec(before + encode_spec(key, value).take(kept), before.len() as int)
            is EndOfStream,
{
    if kept >= HEADER_LEN {
        lemma_le_round_trip(key.len() as u32);
        lemma_le_round_trip(value.len() as u32);
    }
}

/// Whether an executable decoding result is the one `expected` describes.
pub open spec fn decoded_as(
    res: Result<(KeyValuePair, usize), RecordError>,
    expected: Decoded,
) -> bool {
    match expected {
        Decoded::Record { key, value, next } => res matches Ok((kv, n)) && kv.key@ == key
            && kv.value@ == value && n == next,
        Decoded::EndOfStream => res == Err::<(KeyValuePair, usize), _>(
            RecordError::UnexpectedEndOfStream,
        ),
        Decoded::Corrupt { computed, stored } => res == Err::<(KeyValuePair, usize), _>(
            RecordError::CorruptRecord { computed, stored },
        ),
    }
}

/// Lays out a record whose checksum field holds `checksum`.
pub fn frame_record(checksum: u32, key: &[u8], value: &[u8]) -> (out: Vec<u8>)
    requires
        key@.len() <= u32::MAX,
        value@.len() <= u32::MAX,
    ensures
        out@ == frame(checksum, key@, value@),
{
    let mut out: Vec<u8> = Vec::new();
    let checksum_field: [u8; 4] = write_u32_le(checksum);
    let key_len_field: [u8; 4] = write_u32_le(key.len() as u32);
    let value_len_field: [u8; 4] = write_u32_le(value.len() as u32);
    append_bytes(&mut out, checksum_field.as_slice());
    append_bytes(&mut out, key_len_field.as_slice());
    append_bytes(&mut out, value_len_field.as_slice());
    append_bytes(&mut out, key);
    append_bytes(&mut out, value);
    out
}

/// Encodes the record that stores `value` under `key`.
pub fn encode(key: &[u8], value: &[u8]) -> (out: Vec<u8>)
    requires
        key@.len() <= u32::MAX,
        value@.len() <= u32::MAX,
    ensures
        out@ == encode_spec(key@, value@),
{
    let mut data: Vec<u8> = Vec::new();
    append_bytes(&mut data, key);
    append_bytes(&mut data, value);
    let checksum: u32 = checksum_ieee(data.as_slice());
    frame_record(checksum, key, value)
}

/// Reads the header at `position` and the bytes it declares, without
/// verifying the checksum. Returns nothing where the bytes end before the
/// header or before the bytes it declares.
pub fn read_frame(bytes: &[u8], position: usize) -> (res: Option<RawRecord>)
    ensures
        match frame_at(bytes@, position as int) {
            None => res is None,
            Some(f) => res matches Some(raw) && raw.stored == f.stored && raw.key_len
                == f.key.len() && raw.data@ == f.key + f.value && raw.next == f.next,
        },
{
    let len: usize = bytes.len();
    if position > len || len - position < HEADER_LEN {
        return None;
    }
    let stored: u32 = read_u32_le(slice_subrange(bytes, position, position + 4));
    let key_len: u32 = read_u32_le(slice_subrange(bytes, position + 4, position + 8));
    let value_len: u32 = read_u32_le(slice_subrange(bytes, position + 8, position + 12));
    let data_len: u64 = key_len as u64 + value_len as u64;
    let start: usize = position + HEADER_LEN;
    if ((len - start) as u64) < data_len {
        return None;
    }
    let next: usize = start + data_len as usize;
    let data: Vec<u8> = slice_to_vec(slice_subrange(bytes, start, next));
    Some(RawRecord { stored, key_len: key_len as usize, data, next })
}

/// Accepts or rejects a record as read, given the checksum computed over its
/// bytes, and splits the accepted bytes into key and value.
pub fn verify_frame(raw: RawRecord, computed: u32) -> (res: Result<KeyValuePair, RecordError>)
    requires
        raw.key_len <= raw.data@.len(),
    ensures
        computed == raw.stored ==> (res matches Ok(kv) && kv.key@ == raw.data@.subrange(
            0,
            raw.key_len as int,
        ) && kv.value@ == raw.data@.subrange(raw.key_len as int, raw.data@.len() as int)),
        computed != raw.stored ==> res == Err::<KeyValuePair, _>(
            RecordError::CorruptRecord { computed, stored: raw.stored },
        ),
{
    let RawRecord { stored, key_len, data, next } = raw;
    if computed != stored {
        return Err(RecordError::CorruptRecord { computed, stored });
    }
    let mut key: Vec<u8> = data;
    let value: Vec<u8> = key.split_off(key_len);
    Ok(KeyValuePair { key, value })
}

/// Decodes the record at `position`: reads its frame, computes the checksum
/// over the key and value, and verifies it against the stored one. On success
/// returns the pair and the position of the following record.
pub fn process_record(bytes: &[u8], position: usize) -> (res: Result<
    (KeyValuePair, usize),
    RecordError,
>)
    ensures
        decoded_as(res, decode_spec(bytes@, position as int)),
{
    match read_frame(bytes, position) {
        None => Err(RecordError::UnexpectedEndOfStream),
        Some(raw) => {
            let computed: u32 = checksum_ieee(raw.data.as_slice());
            let next: usize = raw.next;
            let ghost f = frame_at(bytes@, position as int)->0;
            assert(raw.data@.subrange(0, raw.key_len as int) == f.key);
            assert(raw.data@.subrange(raw.key_len as int, raw.data@.len() as int) == f.value);
            match verify_frame(raw, computed) {
                Ok(kv) => Ok((kv, next)),
                Err(e) => Err(e),
            }
        },
    }
}

} // verus!
