use wasm_fuel::sections::{ParseError, ParseErrorKind};
use wasm_fuel::types::{decode_type_section, FuncType, ValType};

fn types_of(bytes: &[u8]) -> Result<Vec<FuncType>, ParseError> {
    decode_type_section(bytes, 0)
}

#[test]
fn decodes_empty_type_section() {
    assert_eq!(types_of(&[0x00]), Ok(Vec::new()));
}

#[test]
fn decodes_a_type_with_no_params_or_results() {
    let bytes = [0x01, 0x60, 0x00, 0x00];
    assert_eq!(types_of(&bytes), Ok(vec![FuncType { params: vec![], results: vec![] }]));
}

#[test]
fn decodes_params_and_results() {
    // (i32, i32) -> i32
    let bytes = [0x01, 0x60, 0x02, 0x7F, 0x7F, 0x01, 0x7F];
    assert_eq!(
        types_of(&bytes),
        Ok(vec![FuncType { params: vec![ValType::I32, ValType::I32], results: vec![ValType::I32] }])
    );
}

#[test]
fn decodes_multiple_types() {
    let bytes = [
        0x02, // count
        0x60, 0x00, 0x01, 0x7D, // () -> f32
        0x60, 0x01, 0x7C, 0x00, // (f64) -> ()
    ];
    assert_eq!(
        types_of(&bytes),
        Ok(vec![
            FuncType { params: vec![], results: vec![ValType::F32] },
            FuncType { params: vec![ValType::F64], results: vec![] },
        ])
    );
}

#[test]
fn rejects_wrong_form_byte() {
    let bytes = [0x01, 0x61, 0x00, 0x00];
    assert_eq!(
        types_of(&bytes),
        Err(ParseError { offset: 1, kind: ParseErrorKind::InvalidFuncType })
    );
}

#[test]
fn rejects_unknown_val_type() {
    let bytes = [0x01, 0x60, 0x01, 0x7B, 0x00];
    assert_eq!(
        types_of(&bytes),
        Err(ParseError { offset: 3, kind: ParseErrorKind::InvalidValType })
    );
}

#[test]
fn rejects_truncated_type_section() {
    let bytes = [0x01, 0x60, 0x01, 0x7F];
    assert_eq!(
        types_of(&bytes),
        Err(ParseError { offset: 4, kind: ParseErrorKind::Leb })
    );
}

#[test]
fn types_rejects_trailing_bytes() {
    let bytes = [0x00, 0xAA];
    assert_eq!(
        types_of(&bytes),
        Err(ParseError { offset: 1, kind: ParseErrorKind::SectionSizeMismatch })
    );
}

#[test]
fn types_reports_offsets_relative_to_the_base() {
    let bytes = [0x01, 0x61, 0x00, 0x00];
    assert_eq!(
        decode_type_section(&bytes, 100),
        Err(ParseError { offset: 101, kind: ParseErrorKind::InvalidFuncType })
    );
}

#[test]
fn rejects_missing_form_byte_and_malformed_count() {
    assert_eq!(types_of(&[0x01]), Err(ParseError { offset: 1, kind: ParseErrorKind::UnexpectedEof }));
    assert_eq!(types_of(&[]), Err(ParseError { offset: 0, kind: ParseErrorKind::Leb }));
    assert_eq!(
        decode_type_section(&[0x01, 0x60, 0x02, 0x7F], 7),
        Err(ParseError { offset: 11, kind: ParseErrorKind::UnexpectedEof })
    );
}
