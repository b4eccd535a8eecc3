use wasm_fuel::sections::{
    parse_module_sections, section_bounds, ParseError, ParseErrorKind, RawSection, SectionBounds,
};

const HEADER: [u8; 8] = [0x00, 0x61, 0x73, 0x6D, 0x01, 0x00, 0x00, 0x00];

#[test]
fn empty_module_has_no_sections() {
    assert_eq!(parse_module_sections(&HEADER), Ok(Vec::new()));
}

#[test]
fn rejects_wrong_magic() {
    let bytes = [0x00, 0x61, 0x73, 0x6E, 0x01, 0x00, 0x00, 0x00]; // "asn", not "asm"
    assert_eq!(
        parse_module_sections(&bytes),
        Err(ParseError { offset: 0, kind: ParseErrorKind::NotWasm })
    );
}

#[test]
fn rejects_input_too_short_for_magic() {
    assert_eq!(
        parse_module_sections(&HEADER[..3]),
        Err(ParseError { offset: 0, kind: ParseErrorKind::NotWasm })
    );
}

#[test]
fn rejects_input_too_short_for_version() {
    assert_eq!(
        parse_module_sections(&HEADER[..6]),
        Err(ParseError { offset: 6, kind: ParseErrorKind::UnexpectedEof })
    );
}

#[test]
fn rejects_unsupported_version() {
    let bytes = [0x00, 0x61, 0x73, 0x6D, 0x02, 0x00, 0x00, 0x00];
    assert_eq!(
        parse_module_sections(&bytes),
        Err(ParseError { offset: 4, kind: ParseErrorKind::UnsupportedVersion })
    );
}

#[test]
fn rejects_unknown_section_id() {
    let mut bytes = HEADER.to_vec();
    bytes.extend_from_slice(&[0x0D, 0x00]); // id 13 does not exist, size 0
    assert_eq!(
        parse_module_sections(&bytes),
        Err(ParseError { offset: 8, kind: ParseErrorKind::UnknownSectionId })
    );
}

#[test]
fn rejects_sections_out_of_order() {
    let mut bytes = HEADER.to_vec();
    bytes.extend_from_slice(&[0x07, 0x00]); // export, empty
    bytes.extend_from_slice(&[0x01, 0x00]); // type, after export: too late
    assert_eq!(
        parse_module_sections(&bytes),
        Err(ParseError { offset: 10, kind: ParseErrorKind::SectionOutOfOrder })
    );
}

#[test]
fn rejects_duplicate_sections() {
    let mut bytes = HEADER.to_vec();
    bytes.extend_from_slice(&[0x01, 0x00]); // type
    bytes.extend_from_slice(&[0x01, 0x00]); // type again
    assert_eq!(
        parse_module_sections(&bytes),
        Err(ParseError { offset: 10, kind: ParseErrorKind::SectionOutOfOrder })
    );
}

#[test]
fn allows_repeated_custom_sections_anywhere() {
    let mut bytes = HEADER.to_vec();
    bytes.extend_from_slice(&[0x00, 0x00]); // custom, empty
    bytes.extend_from_slice(&[0x01, 0x00]); // type
    bytes.extend_from_slice(&[0x00, 0x00]); // custom again, after type: fine
    let sections = parse_module_sections(&bytes).unwrap();
    assert_eq!(sections.iter().map(|s| s.id).collect::<Vec<_>>(), vec![0, 1, 0]);
}

#[test]
fn rejects_section_size_past_end_of_input() {
    let mut bytes = HEADER.to_vec();
    bytes.extend_from_slice(&[0x01, 0x05, 0xAA, 0xAA]); // claims 5 bytes, only 2 present
    assert_eq!(
        parse_module_sections(&bytes),
        Err(ParseError { offset: 10, kind: ParseErrorKind::SectionSizeMismatch })
    );
}

#[test]
fn rejects_malformed_section_size() {
    let mut bytes = HEADER.to_vec();
    bytes.extend_from_slice(&[0x01, 0x80]); // continuation bit set, then nothing
    assert_eq!(
        parse_module_sections(&bytes),
        Err(ParseError { offset: 9, kind: ParseErrorKind::Leb })
    );
}

#[test]
fn captures_section_payload_bytes() {
    let mut bytes = HEADER.to_vec();
    bytes.extend_from_slice(&[0x01, 0x03, 0xAA, 0xBB, 0xCC]); // type, 3 bytes of payload
    let sections = parse_module_sections(&bytes).unwrap();
    assert_eq!(sections, vec![RawSection { id: 1, bytes: &[0xAA, 0xBB, 0xCC] }]);
}

#[test]
fn data_count_section_sits_between_element_and_code() {
    let mut bytes = HEADER.to_vec();
    bytes.extend_from_slice(&[0x09, 0x00]); // element
    bytes.extend_from_slice(&[0x0C, 0x00]); // data count
    bytes.extend_from_slice(&[0x0A, 0x00]); // code
    bytes.extend_from_slice(&[0x0B, 0x00]); // data
    let sections = parse_module_sections(&bytes).unwrap();
    assert_eq!(sections.iter().map(|s| s.id).collect::<Vec<_>>(), vec![9, 12, 10, 11]);

    let mut bytes = HEADER.to_vec();
    bytes.extend_from_slice(&[0x0A, 0x00]); // code
    bytes.extend_from_slice(&[0x0C, 0x00]); // data count, after code: too late
    assert_eq!(
        parse_module_sections(&bytes),
        Err(ParseError { offset: 10, kind: ParseErrorKind::SectionOutOfOrder })
    );
}

#[test]
fn section_bounds_are_offsets_into_the_module() {
    let mut bytes = HEADER.to_vec();
    bytes.extend_from_slice(&[0x00, 0x01, 0xEE]); // custom, one byte
    bytes.extend_from_slice(&[0x01, 0x02, 0xAA, 0xBB]); // type, two bytes
    assert_eq!(
        section_bounds(&bytes),
        Ok(vec![
            SectionBounds { id: 0, start: 10, end: 11 },
            SectionBounds { id: 1, start: 13, end: 15 },
        ])
    );
}

#[test]
fn documented_header_only_module() {
    let bytes = [0x00, 0x61, 0x73, 0x6D, 0x01, 0x00, 0x00, 0x00];
    assert!(parse_module_sections(&bytes).unwrap().is_empty());
}
