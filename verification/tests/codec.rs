use lib_oxide_db::record::{
    encode, frame_record, process_record, read_frame, verify_frame, KeyValuePair, RawRecord,
    RecordError, HEADER_LEN,
};

const A1: [u8; 14] = [35, 72, 225, 108, 1, 0, 0, 0, 1, 0, 0, 0, 97, 49];
const HELLO_WORLD: [u8; 22] = [
    173, 32, 235, 249, 5, 0, 0, 0, 5, 0, 0, 0, 104, 101, 108, 108, 111, 119, 111, 114, 108, 100,
];

fn pair(key: &[u8], value: &[u8]) -> KeyValuePair {
    KeyValuePair { key: key.to_vec(), value: value.to_vec() }
}

fn raw(stored: u32, key_len: usize, data: &[u8], next: usize) -> RawRecord {
    RawRecord { stored, key_len, data: data.to_vec(), next }
}

#[test]
fn header_is_twelve_bytes() {
    assert_eq!(HEADER_LEN, 12);
}

#[test]
fn encode_lays_out_header_key_value() {
    assert_eq!(encode(b"a", b"1"), A1.to_vec());
    assert_eq!(encode(b"hello", b"world"), HELLO_WORLD.to_vec());
}

#[test]
fn encode_checksum_is_crc32_ieee() {
    let record = encode(b"123456789", b"");
    assert_eq!(&record[0..4], &[0x26, 0x39, 0xf4, 0xcb]);
    assert_eq!(&record[4..8], &[9, 0, 0, 0]);
    assert_eq!(&record[8..12], &[0, 0, 0, 0]);
    assert_eq!(&record[12..], b"123456789");
}

#[test]
fn encode_checksum_covers_key_then_value() {
    let split_early = encode(b"1234", b"56789");
    let split_late = encode(b"12345678", b"9");
    assert_eq!(&split_early[0..4], &[0x26, 0x39, 0xf4, 0xcb]);
    assert_eq!(&split_late[0..4], &[0x26, 0x39, 0xf4, 0xcb]);
    assert_ne!(split_early, split_late);
}

#[test]
fn encode_empty_key_and_value() {
    assert_eq!(encode(b"", b""), vec![0u8; 12]);
    assert_eq!(
        encode(b"key", b""),
        vec![169, 171, 144, 138, 3, 0, 0, 0, 0, 0, 0, 0, 107, 101, 121]
    );
    assert_eq!(
        encode(b"", b"value"),
        vec![52, 88, 119, 29, 0, 0, 0, 0, 5, 0, 0, 0, 118, 97, 108, 117, 101]
    );
}

#[test]
fn frame_record_writes_little_endian_fields() {
    let record = frame_record(0x0102_0304, &[0xaa; 0x0105], b"xy");
    assert_eq!(&record[0..4], &[4, 3, 2, 1]);
    assert_eq!(&record[4..8], &[5, 1, 0, 0]);
    assert_eq!(&record[8..12], &[2, 0, 0, 0]);
    assert_eq!(record.len(), 12 + 0x0105 + 2);
    assert_eq!(&record[12 + 0x0105..], b"xy");
}

#[test]
fn read_frame_reads_little_endian_fields() {
    let mut bytes = vec![0x78, 0x56, 0x34, 0x12, 2, 0, 0, 0, 1, 0, 0, 0];
    bytes.extend_from_slice(b"kkv");
    bytes.extend_from_slice(b"rest");
    assert_eq!(read_frame(&bytes, 0), Some(raw(0x1234_5678, 2, b"kkv", 15)));
}

#[test]
fn read_frame_needs_whole_header_and_payload() {
    assert_eq!(read_frame(&A1[..11], 0), None);
    assert_eq!(read_frame(&A1[..13], 0), None);
    assert_eq!(read_frame(&A1, 1), None);
    assert_eq!(read_frame(&A1, 14), None);
    assert_eq!(read_frame(&A1, 15), None);
    assert_eq!(read_frame(&A1, usize::MAX), None);
    assert_eq!(read_frame(&A1, 0), Some(raw(0x6ce1_4823, 1, b"a1", 14)));
}

#[test]
fn read_frame_with_largest_lengths_is_end_of_stream() {
    let bytes = [0u8, 0, 0, 0, 0xff, 0xff, 0xff, 0xff, 0xff, 0xff, 0xff, 0xff, 1, 2, 3];
    assert_eq!(read_frame(&bytes, 0), None);
}

#[test]
fn verify_frame_accepts_matching_checksum() {
    assert_eq!(verify_frame(raw(7, 2, b"abcde", 17), 7), Ok(pair(b"ab", b"cde")));
    assert_eq!(verify_frame(raw(7, 0, b"abc", 15), 7), Ok(pair(b"", b"abc")));
    assert_eq!(verify_frame(raw(7, 3, b"abc", 15), 7), Ok(pair(b"abc", b"")));
}

#[test]
fn verify_frame_rejects_other_checksum() {
    assert_eq!(
        verify_frame(raw(7, 2, b"abcde", 17), 8),
        Err(RecordError::CorruptRecord { computed: 8, stored: 7 })
    );
}

#[test]
fn round_trip_gives_the_pair_back() {
    let cases: [(&[u8], &[u8]); 6] = [
        (b"a", b"1"),
        (b"", b""),
        (b"key", b""),
        (b"", b"value"),
        (b"hello", b"world"),
        (&[0, 255, 1, 254], &[0, 0, 0, 0, 0, 0, 0, 0, 0, 0, 0, 0, 0]),
    ];
    for (key, value) in cases {
        let record = encode(key, value);
        assert_eq!(process_record(&record, 0), Ok((pair(key, value), record.len())));
    }
}

#[test]
fn round_trip_of_a_long_value() {
    let key: Vec<u8> = (0..300u32).map(|i| (i % 251) as u8).collect();
    let value: Vec<u8> = (0..70_000u32).map(|i| (i % 253) as u8).collect();
    let record = encode(&key, &value);
    assert_eq!(record.len(), 12 + 300 + 70_000);
    assert_eq!(process_record(&record, 0), Ok((pair(&key, &value), record.len())));
}

#[test]
fn process_record_at_an_offset() {
    let mut bytes = A1.to_vec();
    bytes.extend_from_slice(&HELLO_WORLD);
    assert_eq!(process_record(&bytes, 0), Ok((pair(b"a", b"1"), 14)));
    assert_eq!(process_record(&bytes, 14), Ok((pair(b"hello", b"world"), 36)));
    assert_eq!(process_record(&bytes, 36), Err(RecordError::UnexpectedEndOfStream));
}

#[test]
fn process_record_on_nothing_is_end_of_stream() {
    assert_eq!(process_record(&[], 0), Err(RecordError::UnexpectedEndOfStream));
    assert_eq!(process_record(&[], 5), Err(RecordError::UnexpectedEndOfStream));
}

#[test]
fn truncated_record_is_end_of_stream() {
    for kept in 0..HELLO_WORLD.len() {
        assert_eq!(
            process_record(&HELLO_WORLD[..kept], 0),
            Err(RecordError::UnexpectedEndOfStream)
        );
    }
}

#[test]
fn flipped_checksum_bit_is_corruption() {
    for bit in 0..32 {
        let mut damaged = A1;
        damaged[bit / 8] ^= 1 << (bit % 8);
        let stored: u32 = 0x6ce1_4823 ^ (1 << bit);
        assert_eq!(
            process_record(&damaged, 0),
            Err(RecordError::CorruptRecord { computed: 0x6ce1_4823, stored })
        );
    }
}

#[test]
fn flipped_payload_bit_is_corruption() {
    for bit in 0..(HELLO_WORLD.len() - 12) * 8 {
        let mut damaged = HELLO_WORLD;
        damaged[12 + bit / 8] ^= 1 << (bit % 8);
        match process_record(&damaged, 0) {
            Err(RecordError::CorruptRecord { computed, stored }) => {
                assert_eq!(stored, 0xf9eb_20ad);
                assert_ne!(computed, stored);
            }
            other => panic!("bit {}: {:?}", bit, other),
        }
    }
}

#[test]
fn flipped_length_bit_is_never_accepted() {
    for bit in 32..96 {
        let mut damaged = HELLO_WORLD;
        damaged[bit / 8] ^= 1 << (bit % 8);
        assert!(process_record(&damaged, 0).is_err(), "bit {}", bit);
    }
}

#[test]
fn longer_value_length_reads_as_end_of_stream() {
    let mut damaged = A1;
    damaged[8] ^= 2;
    assert_eq!(process_record(&damaged, 0), Err(RecordError::UnexpectedEndOfStream));
}

#[test]
fn moved_key_boundary_keeps_the_checksum() {
    let mut bytes = encode(b"ab", b"cd");
    bytes[4] = 3;
    bytes[8] = 1;
    assert_eq!(process_record(&bytes, 0), Ok((pair(b"abc", b"d"), 16)));
}
