use dat_decode::DecodeError;
use dat_decode::cursor::ByteDataWrapper;
use dat_decode::dat::DatHeader;
use dat_decode::dat::extract_dat;
use dat_decode::manifest::MemberName;
use dat_decode::manifest::is_pak_name;
use dat_decode::manifest::name_key_le;
use dat_decode::manifest::sort_member_names;

fn le(v: u32) -> [u8; 4] {
    v.to_le_bytes()
}

/// A container archive with two members whose names are deliberately
/// out of manifest order in the file table.
fn sample_dat() -> Vec<u8> {
    let mut d = Vec::new();
    d.extend_from_slice(b"DAT\0");
    d.extend_from_slice(&le(2)); // member count
    d.extend_from_slice(&le(28)); // offsets table
    d.extend_from_slice(&le(0)); // extensions table (unused by extraction)
    d.extend_from_slice(&le(44)); // names table
    d.extend_from_slice(&le(36)); // sizes table
    d.extend_from_slice(&le(0)); // hash map table (unused by extraction)
    // offsets table
    d.extend_from_slice(&le(60));
    d.extend_from_slice(&le(63));
    // sizes table
    d.extend_from_slice(&le(3));
    d.extend_from_slice(&le(2));
    // names table: field width, then null-padded fixed-width fields
    d.extend_from_slice(&le(6));
    d.extend_from_slice(b"B.pak\0");
    d.extend_from_slice(b"a.yax\0");
    // member payloads
    d.extend_from_slice(&[1, 2, 3]);
    d.extend_from_slice(&[9, 9]);
    d
}

#[test]
fn empty_archive_yields_empty_result() {
    let archive = extract_dat(Vec::new()).unwrap();
    assert_eq!(archive.members.len(), 0);
    assert_eq!(archive.manifest.len(), 0);
}

#[test]
fn member_count_and_sizes_match_declarations() {
    let archive = extract_dat(sample_dat()).unwrap();
    assert_eq!(archive.members.len(), 2);
    assert_eq!(archive.members[0].size, 3);
    assert_eq!(archive.members[0].data.len(), 3);
    assert_eq!(archive.members[1].size, 2);
    assert_eq!(archive.members[1].data.len(), 2);
}

#[test]
fn member_names_and_payloads_are_exact() {
    let archive = extract_dat(sample_dat()).unwrap();
    assert_eq!(archive.members[0].name, "B.pak");
    assert_eq!(archive.members[0].offset, 60);
    assert_eq!(archive.members[0].data, vec![1, 2, 3]);
    assert_eq!(archive.members[1].name, "a.yax");
    assert_eq!(archive.members[1].data, vec![9, 9]);
}

#[test]
fn manifest_is_sorted_case_folded() {
    // file-table order is B.pak, a.yax; the manifest folds case and
    // sorts by (stem, extension)
    let archive = extract_dat(sample_dat()).unwrap();
    let names: Vec<&str> = archive.manifest.iter().map(|e| e.text.as_str()).collect();
    assert_eq!(names, vec!["a.yax", "B.pak"]);
}

#[test]
fn manifest_sort_breaks_stem_ties_by_extension() {
    let mut entries = vec![
        MemberName { bytes: b"Scene.YAX".to_vec(), text: String::from("Scene.YAX") },
        MemberName { bytes: b"scene.pak".to_vec(), text: String::from("scene.pak") },
        MemberName { bytes: b"a.z".to_vec(), text: String::from("a.z") },
    ];
    sort_member_names(&mut entries);
    let names: Vec<&str> = entries.iter().map(|e| e.text.as_str()).collect();
    assert_eq!(names, vec!["a.z", "scene.pak", "Scene.YAX"]);
}

#[test]
fn name_comparison_folds_ascii_case() {
    let a = MemberName { bytes: b"ALPHA.pak".to_vec(), text: String::from("ALPHA.pak") };
    let b = MemberName { bytes: b"beta.pak".to_vec(), text: String::from("beta.pak") };
    assert!(name_key_le(&a, &b));
    assert!(!name_key_le(&b, &a));
}

#[test]
fn truncated_header_is_a_bounds_error() {
    let r = extract_dat(vec![0u8; 10]);
    assert_eq!(r.unwrap_err(), DecodeError::OutOfBounds);
}

#[test]
fn member_span_outside_buffer_is_a_bounds_error() {
    let mut d = sample_dat();
    // declare the first member's size far past the buffer end
    d[36..40].copy_from_slice(&le(1000));
    assert_eq!(extract_dat(d).unwrap_err(), DecodeError::OutOfBounds);
}

#[test]
fn invalid_utf8_in_a_name_is_replaced_not_fatal() {
    let mut d = sample_dat();
    // the second byte of "B.pak" becomes an invalid UTF-8 byte
    d[49] = 0xff;
    let archive = extract_dat(d).unwrap();
    assert_eq!(archive.members[0].name, "B\u{fffd}pak");
}

#[test]
fn header_reads_all_fields_in_order() {
    let mut bytes = ByteDataWrapper::from_vec(sample_dat());
    let h = DatHeader::new(&mut bytes).unwrap();
    assert_eq!(h.id, "DAT\0");
    assert_eq!(h.file_number, 2);
    assert_eq!(h.file_offsets_offset, 28);
    assert_eq!(h.file_extensions_offset, 0);
    assert_eq!(h.file_names_offset, 44);
    assert_eq!(h.file_sizes_offset, 36);
    assert_eq!(h.hash_map_offset, 0);
}

#[test]
fn pak_names_are_recognized_by_suffix() {
    assert!(is_pak_name(&b"scene.pak".to_vec()));
    assert!(!is_pak_name(&b"scene.yax".to_vec()));
    assert!(!is_pak_name(&b"pak".to_vec()));
}

#[test]
fn cursor_reads_little_endian_and_tracks_position() {
    let mut b = ByteDataWrapper::from_vec(vec![0x01, 0x02, 0x03, 0x04, 0x61, 0x62, 0x63, 0x7f]);
    assert_eq!(b.read_u32().unwrap(), 0x04030201);
    assert_eq!(b.read_string(3).unwrap(), "abc");
    assert_eq!(b.read_u8().unwrap(), 0x7f);
    assert_eq!(b.read_u8().unwrap_err(), DecodeError::OutOfBounds);
    b.set_position(4);
    assert_eq!(b.read_u8_list(2).unwrap(), vec![0x61, 0x62]);
    assert_eq!(b.read_u32().unwrap_err(), DecodeError::OutOfBounds);
}

#[test]
fn duplicate_names_all_appear_in_the_manifest() {
    let mut d = sample_dat();
    // both name fields hold the same name
    d[48..54].copy_from_slice(b"a.yax\0");
    let archive = extract_dat(d).unwrap();
    let names: Vec<&str> = archive.manifest.iter().map(|e| e.text.as_str()).collect();
    assert_eq!(names, vec!["a.yax", "a.yax"]);
}
