use wasm_fuel::functions::decode_function_section;
use wasm_fuel::sections::{ParseError, ParseErrorKind};
use wasm_fuel::leb::write_unsigned;

fn indices_of(bytes: &[u8]) -> Result<Vec<u32>, ParseError> {
    decode_function_section(bytes, 0)
}

#[test]
fn decodes_empty_function_section() {
    assert_eq!(indices_of(&[0x00]), Ok(Vec::new()));
}

#[test]
fn decodes_type_indices_in_order() {
    let bytes = [0x03, 0x00, 0x02, 0x01];
    assert_eq!(indices_of(&bytes), Ok(vec![0, 2, 1]));
}

#[test]
fn functions_rejects_trailing_bytes() {
    let bytes = [0x00, 0xAA];
    assert_eq!(
        indices_of(&bytes),
        Err(ParseError { offset: 1, kind: ParseErrorKind::SectionSizeMismatch })
    );
}

#[test]
fn rejects_truncated_function_section() {
    let bytes = [0x02, 0x00, 0x80];
    assert_eq!(
        indices_of(&bytes),
        Err(ParseError { offset: 2, kind: ParseErrorKind::Leb })
    );
}

#[test]
fn functions_reports_offsets_relative_to_the_base() {
    let bytes = [0x01, 0x80];
    assert_eq!(
        decode_function_section(&bytes, 100),
        Err(ParseError { offset: 101, kind: ParseErrorKind::Leb })
    );
}

#[test]
fn decodes_multi_byte_type_indices() {
    let bytes = [0x02, 0xE5, 0x8E, 0x26, 0x7F];
    assert_eq!(indices_of(&bytes), Ok(vec![624_485, 127]));
}

#[test]
fn written_type_indices_read_back() {
    let lists: [&[u32]; 4] = [&[], &[0], &[127, 128, 624_485], &[u32::MAX, 0, 1]];
    for xs in lists {
        let mut buf = Vec::new();
        write_unsigned(xs.len() as u64, &mut buf);
        for &x in xs {
            write_unsigned(x as u64, &mut buf);
        }
        assert_eq!(decode_function_section(&buf, 0), Ok(xs.to_vec()));
        assert_eq!(decode_function_section(&buf, 1000), Ok(xs.to_vec()));
    }
}
