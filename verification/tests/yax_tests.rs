use dat_decode::DecodeError;
use dat_decode::cursor::ByteDataWrapper;
use dat_decode::symbols::SymbolTables;
use dat_decode::symbols::hash_to_string_map;
use dat_decode::xml::yax_to_xml;
use dat_decode::yax::build_tree;
use dat_decode::yax::parse_yax_records;
use dat_decode::yax::read_string_zero_terminated;

fn le(v: u32) -> [u8; 4] {
    v.to_le_bytes()
}

fn record(ind: u8, hash: u32, soff: u32) -> Vec<u8> {
    let mut r = vec![ind];
    r.extend_from_slice(&le(hash));
    r.extend_from_slice(&le(soff));
    r
}

fn buffer(records: &[(u8, u32, u32)], strings: &[u8]) -> Vec<u8> {
    let mut d = Vec::new();
    d.extend_from_slice(&le(records.len() as u32));
    for &(ind, hash, soff) in records {
        d.extend_from_slice(&record(ind, hash, soff));
    }
    d.extend_from_slice(strings);
    d
}

fn tables() -> SymbolTables {
    SymbolTables::new(
        vec![
            (0x11, String::from("A")),
            (0x12, String::from("B")),
            (0x13, String::from("C")),
            (0x1a2, String::from("target_name")),
        ],
        vec![(String::from("\u{3042}"), String::from("a!"))],
    )
}

#[test]
fn three_records_make_one_root_with_two_children() {
    let d = buffer(&[(0, 0x11, 0), (1, 0x12, 0), (1, 0x13, 0)], b"");
    let records = parse_yax_records(&d, &tables()).unwrap();
    assert_eq!(records.len(), 3);
    let roots = build_tree(&records).unwrap();
    assert_eq!(roots.len(), 1);
    assert_eq!(roots[0].tag_name, "A");
    assert_eq!(roots[0].children.len(), 2);
    assert_eq!(roots[0].children[0].tag_name, "B");
    assert_eq!(roots[0].children[1].tag_name, "C");
    assert_eq!(roots[0].children[0].children.len(), 0);
    assert_eq!(roots[0].children[1].children.len(), 0);
}

#[test]
fn nested_document_renders_with_tab_indentation() {
    let d = buffer(&[(0, 0x11, 0), (1, 0x12, 0), (1, 0x13, 0)], b"");
    let xml = yax_to_xml(&d, &tables()).unwrap();
    assert_eq!(
        xml,
        "<root>\n\t<A>\n\t\t<B>\n\t\t</B>\n\t\t<C>\n\t\t</C>\n\t</A>\n</root>"
    );
}

#[test]
fn decoding_the_same_buffer_twice_is_identical() {
    let d = buffer(&[(0, 0x11, 0), (1, 0x12, 0), (1, 0x13, 0)], b"");
    let t = tables();
    let records1 = parse_yax_records(&d, &t).unwrap();
    let records2 = parse_yax_records(&d, &t).unwrap();
    let roots1 = build_tree(&records1).unwrap();
    let roots2 = build_tree(&records2).unwrap();
    assert_eq!(roots1.len(), roots2.len());
    assert_eq!(roots1[0].tag_name, roots2[0].tag_name);
    assert_eq!(roots1[0].children.len(), roots2[0].children.len());
    assert_eq!(roots1[0].children[1].tag_name, roots2[0].children[1].tag_name);
    assert_eq!(yax_to_xml(&d, &t).unwrap(), yax_to_xml(&d, &t).unwrap());
}

#[test]
fn unknown_tag_hash_renders_with_its_id_in_hex() {
    let d = buffer(&[(0, 0x1c2, 0)], b"");
    let xml = yax_to_xml(&d, &SymbolTables::new(vec![], vec![])).unwrap();
    assert_eq!(xml, "<root>\n\t<UNKNOWN id=\"0x1c2\">\n\t</UNKNOWN>\n</root>");
}

#[test]
fn repeated_lookups_resolve_to_the_same_name() {
    let t = tables();
    let first = hash_to_string_map(&t, 0x12).cloned();
    let second = hash_to_string_map(&t, 0x12).cloned();
    assert_eq!(first, Some(String::from("B")));
    assert_eq!(first, second);
    assert_eq!(hash_to_string_map(&t, 0xdead), None);
}

#[test]
fn node_text_comes_from_the_string_table_by_offset() {
    // one record; the string table starts at byte 13
    let d = buffer(&[(0, 0x11, 13)], b"hi\0");
    let xml = yax_to_xml(&d, &tables()).unwrap();
    assert_eq!(xml, "<root>\n\t<A>hi</A>\n</root>");
}

#[test]
fn missing_string_offset_means_no_text() {
    let d = buffer(&[(0, 0x11, 999)], b"hi\0");
    let xml = yax_to_xml(&d, &tables()).unwrap();
    assert_eq!(xml, "<root>\n\t<A>\n\t</A>\n</root>");
}

#[test]
fn text_characters_with_markup_meaning_are_escaped() {
    let d = buffer(&[(0, 0x11, 13)], b"a<b&c\0");
    let xml = yax_to_xml(&d, &tables()).unwrap();
    assert_eq!(xml, "<root>\n\t<A>a&lt;b&amp;c</A>\n</root>");
}

#[test]
fn escaped_quote_markers_are_doubled() {
    let d = buffer(&[(0, 0x11, 13)], b"q&quot;w\0");
    let xml = yax_to_xml(&d, &tables()).unwrap();
    // the marker becomes two literal quotes, which escaping then
    // renders as two quote entities
    assert_eq!(xml, "<root>\n\t<A>q&quot;&quot;w</A>\n</root>");
}

#[test]
fn hex_reference_text_carries_the_resolved_name() {
    let d = buffer(&[(0, 0x11, 13)], b"0x1a2\0");
    let xml = yax_to_xml(&d, &tables()).unwrap();
    assert_eq!(xml, "<root>\n\t<A str=\"target_name\">0x1a2</A>\n</root>");
}

#[test]
fn hex_reference_ignores_leading_zeros() {
    let d = buffer(&[(0, 0x11, 13)], b"0x0001a2\0");
    let xml = yax_to_xml(&d, &tables()).unwrap();
    assert_eq!(xml, "<root>\n\t<A str=\"target_name\">0x0001a2</A>\n</root>");
}

#[test]
fn zero_or_malformed_hex_text_is_not_a_reference() {
    let t = tables();
    let d1 = buffer(&[(0, 0x11, 13)], b"0x0\0");
    assert_eq!(yax_to_xml(&d1, &t).unwrap(), "<root>\n\t<A>0x0</A>\n</root>");
    let d2 = buffer(&[(0, 0x11, 13)], b"0xzz\0");
    assert_eq!(yax_to_xml(&d2, &t).unwrap(), "<root>\n\t<A>0xzz</A>\n</root>");
    // nine significant digits cannot fit a 32-bit hash
    let d3 = buffer(&[(0, 0x11, 13)], b"0x1000000a2\0");
    assert_eq!(
        yax_to_xml(&d3, &t).unwrap(),
        "<root>\n\t<A>0x1000000a2</A>\n</root>"
    );
}

#[test]
fn translated_non_ascii_text_carries_the_translation() {
    // 0x82 0xa0 is the Shift-JIS encoding of U+3042
    let d = buffer(&[(0, 0x11, 13)], b"\x82\xa0\0");
    let xml = yax_to_xml(&d, &tables()).unwrap();
    assert_eq!(
        xml,
        "<root>\n\t<A eng=\"a!\">\u{3042}</A>\n</root>"
    );
}

#[test]
fn untranslated_non_ascii_text_has_no_annotation() {
    // 0x82 0xa2 is the Shift-JIS encoding of U+3044, which the phrase
    // table does not hold
    let d = buffer(&[(0, 0x11, 13)], b"\x82\xa2\0");
    let xml = yax_to_xml(&d, &tables()).unwrap();
    assert_eq!(xml, "<root>\n\t<A>\u{3044}</A>\n</root>");
}

#[test]
fn a_skipped_indentation_level_is_malformed() {
    let d = buffer(&[(0, 0x11, 0), (2, 0x12, 0)], b"");
    assert_eq!(yax_to_xml(&d, &tables()).unwrap_err(), DecodeError::LevelSkip);
}

#[test]
fn a_first_record_above_level_zero_is_malformed() {
    let d = buffer(&[(1, 0x11, 0)], b"");
    assert_eq!(yax_to_xml(&d, &tables()).unwrap_err(), DecodeError::LevelSkip);
}

#[test]
fn a_truncated_record_region_is_a_bounds_error() {
    let mut d = Vec::new();
    d.extend_from_slice(&le(5)); // five records declared, none present
    assert_eq!(yax_to_xml(&d, &tables()).unwrap_err(), DecodeError::OutOfBounds);
}

#[test]
fn an_empty_record_stream_renders_an_empty_root() {
    let d = buffer(&[], b"");
    let xml = yax_to_xml(&d, &tables()).unwrap();
    assert_eq!(xml, "<root>\n</root>");
}

#[test]
fn second_string_table_entry_is_keyed_by_its_position() {
    // strings start at 13: "hi\0" at 13, "yo\0" at 16
    let d = buffer(&[(0, 0x11, 16)], b"hi\0yo\0");
    let xml = yax_to_xml(&d, &tables()).unwrap();
    assert_eq!(xml, "<root>\n\t<A>yo</A>\n</root>");
}

#[test]
fn zero_terminated_reads_consume_the_terminator() {
    let mut b = ByteDataWrapper::from_vec(b"ab\0\0cd".to_vec());
    assert_eq!(read_string_zero_terminated(&mut b), Some(String::from("ab")));
    assert_eq!(b.position, 3);
    // an immediate terminator is consumed but yields no string
    assert_eq!(read_string_zero_terminated(&mut b), None);
    assert_eq!(b.position, 4);
    // a string may end at the buffer end instead of a terminator
    assert_eq!(read_string_zero_terminated(&mut b), Some(String::from("cd")));
    assert_eq!(b.position, 6);
    assert_eq!(read_string_zero_terminated(&mut b), None);
    assert_eq!(b.position, 6);
}
