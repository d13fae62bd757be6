use std::io::Write;

use dat_decode::DecodeError;
use dat_decode::cursor::ByteDataWrapper;
use dat_decode::pak::HeaderEntry;
use dat_decode::pak::extract_pak;

fn le(v: u32) -> [u8; 4] {
    v.to_le_bytes()
}

fn zlib_compress(payload: &[u8]) -> Vec<u8> {
    let mut enc = flate2::write::ZlibEncoder::new(Vec::new(), flate2::Compression::default());
    enc.write_all(payload).unwrap();
    enc.finish().unwrap()
}

/// A sub-archive with two entries: a raw member of declared size 100
/// filling its whole 100-byte span, and a compressed member of
/// declared size 150 stored in an 88-byte span behind a 4-byte
/// compressed-length prefix. With two 12-byte entries the first
/// entry's offset is 28, which back-solves to the member count.
fn sample_pak(payload1: &[u8]) -> Vec<u8> {
    let stream = zlib_compress(payload1);
    assert!(4 + stream.len() <= 88);
    let mut d = Vec::new();
    // entry 0
    d.extend_from_slice(&le(7)); // type tag
    d.extend_from_slice(&le(100)); // uncompressed size
    d.extend_from_slice(&le(28)); // offset
    // entry 1
    d.extend_from_slice(&le(9));
    d.extend_from_slice(&le(150));
    d.extend_from_slice(&le(128));
    // the format's leading constant region before the first payload
    d.extend_from_slice(&le(0));
    // member 0: raw payload, span 28..128
    for i in 0..100u32 {
        d.push(i as u8);
    }
    // member 1: compressed-length prefix, stream, padding to span end
    d.extend_from_slice(&le(stream.len() as u32));
    d.extend_from_slice(&stream);
    while d.len() < 216 {
        d.push(0);
    }
    d
}

#[test]
fn compression_is_detected_by_size_versus_span() {
    let payload1 = vec![7u8; 150];
    let members = extract_pak(sample_pak(&payload1)).unwrap();
    assert_eq!(members.len(), 2);
    // span 100 with declared size 100: stored raw
    assert!(!members[0].is_compressed);
    // span 88 with declared size 150: must have been compressed
    assert!(members[1].is_compressed);
}

#[test]
fn raw_member_is_copied_minus_alignment_padding() {
    let payload1 = vec![7u8; 150];
    let members = extract_pak(sample_pak(&payload1)).unwrap();
    // declared size 100 is already 4-byte aligned: no padding dropped
    assert_eq!(members[0].data.len(), 100);
    let expected: Vec<u8> = (0..100u32).map(|i| i as u8).collect();
    assert_eq!(members[0].data, expected);
}

#[test]
fn compressed_member_inflates_to_declared_size() {
    let payload1 = vec![7u8; 150];
    let members = extract_pak(sample_pak(&payload1)).unwrap();
    assert_eq!(members[1].uncompressed_size, 150);
    assert_eq!(members[1].data.len(), 150);
    assert_eq!(members[1].data, payload1);
}

#[test]
fn entry_type_tags_are_preserved_verbatim() {
    let payload1 = vec![7u8; 150];
    let members = extract_pak(sample_pak(&payload1)).unwrap();
    assert_eq!(members[0].type_tag, 7);
    assert_eq!(members[1].type_tag, 9);
    assert_eq!(members[0].offset, 28);
    assert_eq!(members[1].offset, 128);
}

#[test]
fn corrupt_stream_is_a_decompression_error() {
    let payload1 = vec![7u8; 150];
    let mut d = sample_pak(&payload1);
    // wreck the zlib stream behind member 1's length prefix
    d[132] = 0xff;
    d[133] = 0xff;
    assert_eq!(extract_pak(d).unwrap_err(), DecodeError::Decompression);
}

#[test]
fn truncated_buffer_is_a_bounds_error() {
    assert_eq!(extract_pak(vec![0u8; 5]).unwrap_err(), DecodeError::OutOfBounds);
}

#[test]
fn decreasing_offsets_are_a_bounds_error() {
    let payload1 = vec![7u8; 150];
    let mut d = sample_pak(&payload1);
    // entry 1's offset falls before entry 0's
    d[20..24].copy_from_slice(&le(10));
    assert_eq!(extract_pak(d).unwrap_err(), DecodeError::OutOfBounds);
}

#[test]
fn a_first_offset_of_twelve_derives_zero_members() {
    // the count comes only from the first entry's offset:
    // (12 - 4) / 12 == 0, whatever else the buffer holds
    let mut d = Vec::new();
    d.extend_from_slice(&le(7));
    d.extend_from_slice(&le(100));
    d.extend_from_slice(&le(12));
    d.extend_from_slice(&[0u8; 50]);
    let members = extract_pak(d).unwrap();
    assert_eq!(members.len(), 0);
}

#[test]
fn header_entry_reads_three_fields() {
    let payload1 = vec![7u8; 150];
    let mut bytes = ByteDataWrapper::from_vec(sample_pak(&payload1));
    let e = HeaderEntry::new(&mut bytes).unwrap();
    assert_eq!(e.type_tag, 7);
    assert_eq!(e.uncompressed_size, 100);
    assert_eq!(e.offset, 28);
    let e2 = HeaderEntry::new(&mut bytes).unwrap();
    assert_eq!(e2.type_tag, 9);
    assert_eq!(e2.uncompressed_size, 150);
    assert_eq!(e2.offset, 128);
}
