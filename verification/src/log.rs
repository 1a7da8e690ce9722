//! The log: an append-only sequence of records, held as bytes.
//!
//! Record `i + 1` begins where record `i` ends. Nothing is rewritten in
//! place: an update or a delete appends a new record. A scan walks the
//! records from the start and stops at the first position that holds no
//! whole record.

use crate::bytes::append_bytes;
use crate::record::{
    decode_spec, encode_spec, lemma_decode_appended, lemma_decode_stable, lemma_truncated_record,
    process_record, Decoded, KeyValuePair, RecordError,
};
use vstd::prelude::*;

verus! {

/// A record of the log and the offset at which it starts.
pub struct Entry {
    pub offset: int,
    pub key: Seq<u8>,
    pub value: Seq<u8>,
}

/// The records that a scan yields when it starts at `pos`, in log order.
pub open spec fn records_from(log: Seq<u8>, pos: int) -> Seq<Entry>
    decreases log.len() - pos,
{
    match decode_spec(log, pos) {
        Decoded::Record { key, value, next } => seq![Entry { offset: pos, key, value }]
            + records_from(log, next),
        _ => Seq::empty(),
    }
}

/// The position at which a scan that starts at `pos` stops: the first one
/// that holds no record with a matching checksum.
pub open spec fn scan_stop(log: Seq<u8>, pos: int) -> int
    decreases log.len() - pos,
{
    match decode_spec(log, pos) {
        Decoded::Record { key, value, next } => scan_stop(log, next),
        _ => pos,
    }
}

/// The error that ends a scan from `pos`, if it does not end at the end of
/// the stream.
pub open spec fn scan_error(log: Seq<u8>, pos: int) -> Option<RecordError> {
    match decode_spec(log, scan_stop(log, pos)) {
        Decoded::Corrupt { computed, stored } => Some(
            RecordError::CorruptRecord { computed, stored },
        ),
        _ => None,
    }
}

/// Whether the log is whole records from start to end, with no bytes left over.
pub open spec fn is_clean(log: Seq<u8>) -> bool {
    scan_stop(log, 0) == log.len()
}

/// Whether a read result is the pair that `expected` describes, or its error.
pub open spec fn read_as(res: Result<KeyValuePair, RecordError>, expected: Decoded) -> bool {
    match expected {
        Decoded::Record { key, value, next } => res matches Ok(kv) && kv.key@ == key && kv.value@
            == value,
        Decoded::EndOfStream => res == Err::<KeyValuePair, _>(RecordError::UnexpectedEndOfStream),
        Decoded::Corrupt { computed, stored } => res == Err::<KeyValuePair, _>(
            RecordError::CorruptRecord { computed, stored },
        ),
    }
}

/// Whether one step of a scan at `pos` gave what `expected` describes.
pub open spec fn step_as(
    res: Result<Option<(u64, KeyValuePair)>, RecordError>,
    pos: int,
    expected: Decoded,
) -> bool {
    match expected {
        Decoded::Record { key, value, next } => res matches Ok(Some((offset, kv))) && offset == pos
            && kv.key@ == key && kv.value@ == value,
        Decoded::EndOfStream => res == Ok::<Option<(u64, KeyValuePair)>, RecordError>(None),
        Decoded::Corrupt { computed, stored } => res == Err::<Option<(u64, KeyValuePair)>, _>(
            RecordError::CorruptRecord { computed, stored },
        ),
    }
}

/// The position of a scan after a step at `pos` with the given outcome.
pub open spec fn step_position(pos: int, outcome: Decoded) -> int {
    match outcome {
        Decoded::Record { key, value, next } => next,
        _ => pos,
    }
}

/// A scan stops within the log, at or after the position where it started.
pub proof fn lemma_scan_stop_bounds(log: Seq<u8>, pos: int)
    requires
        0 <= pos <= log.len(),
    ensures
        pos <= scan_stop(log, pos) <= log.len(),
        !(decode_spec(log, scan_stop(log, pos)) is Record),
    decreases log.len() - pos,
{
    if decode_spec(log, pos) is Record {
        lemma_scan_stop_bounds(log, decode_spec(log, pos)->next);
    }
}

/// Appending a record to a clean log adds one entry to what a scan yields,
/// and leaves the log clean.
pub proof fn lemma_scan_appended(log: Seq<u8>, key: Seq<u8>, value: Seq<u8>, pos: int)
    requires
        key.len() <= u32::MAX,
        value.len() <= u32::MAX,
        0 <= pos <= log.len(),
        scan_stop(log, pos) == log.len(),
    ensures
        records_from(log + encode_spec(key, value), pos) == records_from(log, pos).push(
            Entry { offset: log.len() as int, key, value },
        ),
        scan_stop(log + encode_spec(key, value), pos) == log.len() + encode_spec(key, value).len(),
    decreases log.len() - pos,
{
    let record = encode_spec(key, value);
    if decode_spec(log, pos) is Record {
        lemma_decode_stable(log, record, pos);
        lemma_scan_appended(log, key, value, decode_spec(log, pos)->next);
    } else {
        let grown = log + record;
        let end = grown.len() as int;
        lemma_decode_appended(log, key, value);
        assert(scan_stop(grown, end) == end);
        assert(records_from(grown, end) == Seq::<Entry>::empty());
    }
}

/// Bytes that follow a clean log and do not start with a record change
/// nothing of what a scan yields: it stops where the clean log ended.
pub proof fn lemma_scan_with_tail(log: Seq<u8>, tail: Seq<u8>, pos: int)
    requires
        0 <= pos <= log.len(),
        scan_stop(log, pos) == log.len(),
        !(decode_spec(log + tail, log.len() as int) is Record),
    ensures
        records_from(log + tail, pos) == records_from(log, pos),
        scan_stop(log + tail, pos) == log.len(),
    decreases log.len() - pos,
{
    if decode_spec(log, pos) is Record {
        lemma_decode_stable(log, tail, pos);
        lemma_scan_with_tail(log, tail, decode_spec(log, pos)->next);
    }
}

/// A scan of an empty log yields no record and no error.
pub proof fn lemma_scan_empty()
    ensures
        records_from(Seq::<u8>::empty(), 0) == Seq::<Entry>::empty(),
        scan_error(Seq::<u8>::empty(), 0) is None,
        is_clean(Seq::<u8>::empty()),
{
}

/// A scan of a clean log that is followed by a record cut short yields the
/// records of the clean log and no error: the cut is taken for the end.
pub proof fn lemma_scan_truncated(log: Seq<u8>, key: Seq<u8>, value: Seq<u8>, kept: int)
    requires
        key.len() <= u32::MAX,
        value.len() <= u32::MAX,
        0 <= kept < encode_spec(key, value).len(),
        is_clean(log),
    ensures
        records_from(log + encode_spec(key, value).take(kept), 0) == records_from(log, 0),
        scan_error(log + encode_spec(key, value).take(kept), 0) is None,
{
    let tail = encode_spec(key, value).take(kept);
    lemma_truncated_record(log, key, value, kept);
    lemma_scan_with_tail(log, tail, 0);
}

/// Every entry that a scan yields is the record that decodes at its offset.
pub proof fn lemma_records_decode(log: Seq<u8>, pos: int, i: int)
    requires
        0 <= pos <= log.len(),
        0 <= i < records_from(log, pos).len(),
    ensures
        pos <= records_from(log, pos)[i].offset <= log.len(),
        decode_spec(log, records_from(log, pos)[i].offset) is Record,
        decode_spec(log, records_from(log, pos)[i].offset)->key == records_from(log, pos)[i].key,
        decode_spec(log, records_from(log, pos)[i].offset)->value == records_from(
            log,
            pos,
        )[i].value,
    decreases log.len() - pos,
{
    if i > 0 {
        lemma_records_decode(log, decode_spec(log, pos)->next, i - 1);
    }
}

/// The log of a store.
#[derive(Debug)]
pub struct Log {
    bytes: Vec<u8>,
}

impl View for Log {
    type V = Seq<u8>;

    closed spec fn view(&self) -> Seq<u8> {
        self.bytes@
    }
}

impl Log {
    /// A log with the given contents, which are not read or validated.
    pub fn open(contents: Vec<u8>) -> (log: Log)
        ensures
            log@ == contents@,
    {
        Log { bytes: contents }
    }

    /// The length of a log fits the machine's offsets.
    pub proof fn lemma_fits(&self)
        ensures
            self@.len() <= usize::MAX,
    {
        assert(self.bytes@.len() == self.bytes.len());
    }

    /// The offset of the end of the log, where the next record will start.
    pub fn end(&self) -> (offset: u64)
        ensures
            offset == self@.len(),
    {
        self.bytes.len() as u64
    }

    /// The contents of the log.
    pub fn as_bytes(&self) -> (bytes: &[u8])
        ensures
            bytes@ == self@,
    {
        self.bytes.as_slice()
    }

    /// Appends `record` at the end of the log and returns the offset at
    /// which it starts.
    pub fn append(&mut self, record: &[u8]) -> (offset: u64)
        ensures
            final(self)@ == old(self)@ + record@,
            offset == old(self)@.len(),
    {
        let offset: u64 = self.bytes.len() as u64;
        append_bytes(&mut self.bytes, record);
        offset
    }

    /// Decodes the record that starts at `offset`.
    pub fn read_at(&self, offset: u64) -> (res: Result<KeyValuePair, RecordError>)
        ensures
            read_as(res, decode_spec(self@, offset as int)),
    {
        if offset > self.bytes.len() as u64 {
            return Err(RecordError::UnexpectedEndOfStream);
        }
        match process_record(self.bytes.as_slice(), offset as usize) {
            Ok((kv, _)) => Ok(kv),
            Err(e) => Err(e),
        }
    }

    /// A scan of the log that starts at offset 0.
    pub fn scan(&self) -> (scan: Scan<'_>)
        ensures
            scan.log() == self@,
            scan.position() == 0,
    {
        Scan { bytes: self.bytes.as_slice(), position: 0 }
    }
}

/// A scan in progress: it yields one record at a time, in log order, and can
/// be started afresh at any time.
#[derive(Debug)]
pub struct Scan<'a> {
    bytes: &'a [u8],
    position: usize,
}

impl<'a> Scan<'a> {
    /// The contents of the log that is scanned.
    pub closed spec fn log(&self) -> Seq<u8> {
        self.bytes@
    }

    /// The offset at which the next record is looked for.
    pub closed spec fn position(&self) -> int {
        self.position as int
    }

    /// Decodes the record at the current position and moves behind it.
    /// Returns `None`, and stays, where no whole record remains; returns the
    /// error, and stays, where the record is corrupt.
    pub fn next_record(&mut self) -> (res: Result<Option<(u64, KeyValuePair)>, RecordError>)
        ensures
            final(self).log() == old(self).log(),
            step_as(res, old(self).position(), decode_spec(old(self).log(), old(self).position())),
            final(self).position() == step_position(
                old(self).position(),
                decode_spec(old(self).log(), old(self).position()),
            ),
    {
        let offset: u64 = self.position as u64;
        match process_record(self.bytes, self.position) {
            Ok((kv, next)) => {
                self.position = next;
                Ok(Some((offset, kv)))
            },
            Err(RecordError::UnexpectedEndOfStream) => Ok(None),
            Err(e) => Err(e),
        }
    }
}

} // verus!
