use wasm_fuel::imports::{decode_import_section, ExternKind, GlobalType, Import, Limits, TableType};
use wasm_fuel::sections::{ParseError, ParseErrorKind};
use wasm_fuel::types::ValType;

fn imports_of(bytes: &[u8]) -> Result<Vec<Import>, ParseError> {
    decode_import_section(bytes, 0)
}

fn name_bytes(s: &str) -> Vec<u8> {
    let mut out = vec![s.len() as u8];
    out.extend_from_slice(s.as_bytes());
    out
}

#[test]
fn decodes_empty_import_section() {
    assert_eq!(imports_of(&[0x00]), Ok(Vec::new()));
}

#[test]
fn decodes_a_func_import() {
    let mut bytes = vec![0x01]; // count
    bytes.extend(name_bytes("env"));
    bytes.extend(name_bytes("add"));
    bytes.extend_from_slice(&[0x00, 0x02]); // func import, type index 2
    assert_eq!(
        imports_of(&bytes),
        Ok(vec![Import {
            module: "env".to_string(),
            name: "add".to_string(),
            kind: ExternKind::Func(2),
        }])
    );
}

#[test]
fn decodes_a_table_import() {
    let mut bytes = vec![0x01];
    bytes.extend(name_bytes("env"));
    bytes.extend(name_bytes("t"));
    bytes.extend_from_slice(&[0x01, 0x70, 0x01, 0x02, 0x08]); // table, funcref, min 2, max 8
    assert_eq!(
        imports_of(&bytes),
        Ok(vec![Import {
            module: "env".to_string(),
            name: "t".to_string(),
            kind: ExternKind::Table(TableType { limits: Limits { min: 2, max: Some(8) } }),
        }])
    );
}

#[test]
fn decodes_a_memory_import_without_a_max() {
    let mut bytes = vec![0x01];
    bytes.extend(name_bytes("env"));
    bytes.extend(name_bytes("mem"));
    bytes.extend_from_slice(&[0x02, 0x00, 0x01]); // memory, min 1, no max
    assert_eq!(
        imports_of(&bytes),
        Ok(vec![Import {
            module: "env".to_string(),
            name: "mem".to_string(),
            kind: ExternKind::Memory(Limits { min: 1, max: None }),
        }])
    );
}

#[test]
fn decodes_a_mutable_global_import() {
    let mut bytes = vec![0x01];
    bytes.extend(name_bytes("env"));
    bytes.extend(name_bytes("g"));
    bytes.extend_from_slice(&[0x03, 0x7F, 0x01]); // global, i32, mutable
    assert_eq!(
        imports_of(&bytes),
        Ok(vec![Import {
            module: "env".to_string(),
            name: "g".to_string(),
            kind: ExternKind::Global(GlobalType { val_type: ValType::I32, mutable: true }),
        }])
    );
}

#[test]
fn decodes_multiple_imports_in_order() {
    let mut bytes = vec![0x02];
    bytes.extend(name_bytes("env"));
    bytes.extend(name_bytes("a"));
    bytes.extend_from_slice(&[0x00, 0x00]);
    bytes.extend(name_bytes("env"));
    bytes.extend(name_bytes("b"));
    bytes.extend_from_slice(&[0x00, 0x01]);
    let imports = imports_of(&bytes).unwrap();
    assert_eq!(imports.len(), 2);
    assert_eq!(imports[0].kind, ExternKind::Func(0));
    assert_eq!(imports[1].kind, ExternKind::Func(1));
}

#[test]
fn rejects_unknown_extern_kind() {
    let mut bytes = vec![0x01];
    bytes.extend(name_bytes("env"));
    bytes.extend(name_bytes("x"));
    let offset = bytes.len();
    bytes.push(0x04); // not a valid kind byte
    assert_eq!(
        imports_of(&bytes),
        Err(ParseError { offset, kind: ParseErrorKind::InvalidExternKind })
    );
}

#[test]
fn imports_rejects_invalid_utf8_name() {
    let mut bytes = vec![0x01, 0x01, 0xFF]; // module name: one byte, not valid UTF-8
    let offset = bytes.len() - 1;
    bytes.extend(name_bytes("x"));
    bytes.extend_from_slice(&[0x00, 0x00]);
    assert_eq!(
        imports_of(&bytes),
        Err(ParseError { offset, kind: ParseErrorKind::InvalidUtf8 })
    );
}

#[test]
fn rejects_bad_limits_flag() {
    let mut bytes = vec![0x01];
    bytes.extend(name_bytes("env"));
    bytes.extend(name_bytes("mem"));
    bytes.push(0x02);
    let offset = bytes.len();
    bytes.push(0x02); // flag must be 0 or 1
    assert_eq!(
        imports_of(&bytes),
        Err(ParseError { offset, kind: ParseErrorKind::InvalidLimits })
    );
}

#[test]
fn rejects_max_below_min() {
    let mut bytes = vec![0x01];
    bytes.extend(name_bytes("env"));
    bytes.extend(name_bytes("mem"));
    bytes.extend_from_slice(&[0x02, 0x01, 0x05]);
    let offset = bytes.len();
    bytes.push(0x02); // max 2 < min 5
    assert_eq!(
        imports_of(&bytes),
        Err(ParseError { offset, kind: ParseErrorKind::InvalidLimits })
    );
}

#[test]
fn rejects_non_funcref_table_element_type() {
    let mut bytes = vec![0x01];
    bytes.extend(name_bytes("env"));
    bytes.extend(name_bytes("t"));
    bytes.push(0x01);
    let offset = bytes.len();
    bytes.extend_from_slice(&[0x6F, 0x00, 0x00]); // externref, not funcref
    assert_eq!(
        imports_of(&bytes),
        Err(ParseError { offset, kind: ParseErrorKind::InvalidExternKind })
    );
}

#[test]
fn imports_rejects_trailing_bytes() {
    let bytes = [0x00, 0xAA];
    assert_eq!(
        imports_of(&bytes),
        Err(ParseError { offset: 1, kind: ParseErrorKind::SectionSizeMismatch })
    );
}

#[test]
fn rejects_truncated_import_section() {
    let mut bytes = vec![0x01];
    bytes.extend(name_bytes("env"));
    let offset = bytes.len();
    assert_eq!(
        imports_of(&bytes),
        Err(ParseError { offset, kind: ParseErrorKind::Leb })
    );
}

#[test]
fn imports_reports_offsets_relative_to_the_base() {
    let bytes = [0x01, 0x01, 0xFF];
    assert_eq!(
        decode_import_section(&bytes, 100),
        Err(ParseError { offset: 102, kind: ParseErrorKind::InvalidUtf8 })
    );
}

#[test]
fn decodes_multi_byte_utf8_names() {
    let mut bytes = vec![0x01];
    bytes.extend(name_bytes("m\u{e9}"));
    bytes.extend(name_bytes("\u{1F600}"));
    bytes.extend_from_slice(&[0x02, 0x01, 0x00, 0x00]); // memory, min 0, max 0
    assert_eq!(
        imports_of(&bytes),
        Ok(vec![Import {
            module: "m\u{e9}".to_string(),
            name: "\u{1F600}".to_string(),
            kind: ExternKind::Memory(Limits { min: 0, max: Some(0) }),
        }])
    );
}

#[test]
fn rejects_encoded_surrogates_and_truncated_names() {
    // U+D800 encoded as three bytes is not UTF-8.
    let bytes = [0x01, 0x03, 0xED, 0xA0, 0x80, 0x00, 0x00, 0x00];
    assert_eq!(imports_of(&bytes), Err(ParseError { offset: 2, kind: ParseErrorKind::InvalidUtf8 }));
    // A name that claims more bytes than remain.
    let bytes = [0x01, 0x05, 0x61];
    assert_eq!(imports_of(&bytes), Err(ParseError { offset: 2, kind: ParseErrorKind::UnexpectedEof }));
}

#[test]
fn rejects_bad_global_mutability_and_missing_kind() {
    let mut bytes = vec![0x01];
    bytes.extend(name_bytes("env"));
    bytes.extend(name_bytes("g"));
    bytes.extend_from_slice(&[0x03, 0x7E]);
    let offset = bytes.len();
    bytes.push(0x02);
    assert_eq!(imports_of(&bytes), Err(ParseError { offset, kind: ParseErrorKind::InvalidExternKind }));

    let mut bytes = vec![0x01];
    bytes.extend(name_bytes("env"));
    bytes.extend(name_bytes("g"));
    let offset = bytes.len();
    assert_eq!(imports_of(&bytes), Err(ParseError { offset, kind: ParseErrorKind::UnexpectedEof }));
}
