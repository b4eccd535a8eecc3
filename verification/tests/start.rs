use wasm_fuel::sections::{ParseError, ParseErrorKind};
use wasm_fuel::start::decode_start_section;

#[test]
fn decodes_a_start_function_index() {
    assert_eq!(decode_start_section(&[0x02], 0), Ok(2));
}

#[test]
fn start_rejects_trailing_bytes() {
    let bytes = [0x00, 0xAA];
    assert_eq!(
        decode_start_section(&bytes, 0),
        Err(ParseError { offset: 1, kind: ParseErrorKind::SectionSizeMismatch })
    );
}

#[test]
fn rejects_empty_start_section() {
    assert_eq!(decode_start_section(&[], 0), Err(ParseError { offset: 0, kind: ParseErrorKind::Leb }));
}

#[test]
fn start_reports_offsets_relative_to_the_base() {
    let bytes = [0x00, 0xAA];
    assert_eq!(
        decode_start_section(&bytes, 100),
        Err(ParseError { offset: 101, kind: ParseErrorKind::SectionSizeMismatch })
    );
}

#[test]
fn decodes_a_multi_byte_start_index() {
    assert_eq!(decode_start_section(&[0x80, 0x01], 0), Ok(128));
    assert_eq!(
        decode_start_section(&[0xFF, 0xFF, 0xFF, 0xFF, 0x1F], 5),
        Err(ParseError { offset: 5, kind: ParseErrorKind::Leb })
    );
}
