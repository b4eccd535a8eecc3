use wasm_fuel::exports::{decode_export_section, Export, ExportKind};
use wasm_fuel::sections::{ParseError, ParseErrorKind};

fn exports_of(bytes: &[u8]) -> Result<Vec<Export>, ParseError> {
    decode_export_section(bytes, 0)
}

fn name_bytes(s: &str) -> Vec<u8> {
    let mut out = vec![s.len() as u8];
    out.extend_from_slice(s.as_bytes());
    out
}

#[test]
fn decodes_empty_export_section() {
    assert_eq!(exports_of(&[0x00]), Ok(Vec::new()));
}

#[test]
fn decodes_a_func_export() {
    let mut bytes = vec![0x01]; // count
    bytes.extend(name_bytes("run"));
    bytes.extend_from_slice(&[0x00, 0x02]); // func export, index 2
    assert_eq!(
        exports_of(&bytes),
        Ok(vec![Export { name: "run".to_string(), kind: ExportKind::Func, index: 2 }])
    );
}

#[test]
fn decodes_every_export_kind() {
    let mut bytes = vec![0x04];
    bytes.extend(name_bytes("t"));
    bytes.extend_from_slice(&[0x01, 0x00]);
    bytes.extend(name_bytes("m"));
    bytes.extend_from_slice(&[0x02, 0x00]);
    bytes.extend(name_bytes("g"));
    bytes.extend_from_slice(&[0x03, 0x00]);
    bytes.extend(name_bytes("f"));
    bytes.extend_from_slice(&[0x00, 0x00]);
    let exports = exports_of(&bytes).unwrap();
    assert_eq!(
        exports.iter().map(|e| e.kind).collect::<Vec<_>>(),
        vec![ExportKind::Table, ExportKind::Memory, ExportKind::Global, ExportKind::Func]
    );
}

#[test]
fn decodes_multiple_exports_in_order() {
    let mut bytes = vec![0x02];
    bytes.extend(name_bytes("a"));
    bytes.extend_from_slice(&[0x00, 0x00]);
    bytes.extend(name_bytes("b"));
    bytes.extend_from_slice(&[0x00, 0x01]);
    let exports = exports_of(&bytes).unwrap();
    assert_eq!(exports[0].name, "a");
    assert_eq!(exports[1].name, "b");
}

#[test]
fn rejects_unknown_export_kind() {
    let mut bytes = vec![0x01];
    bytes.extend(name_bytes("x"));
    let offset = bytes.len();
    bytes.push(0x04); // not a valid kind byte
    assert_eq!(
        exports_of(&bytes),
        Err(ParseError { offset, kind: ParseErrorKind::InvalidExternKind })
    );
}

#[test]
fn exports_rejects_invalid_utf8_name() {
    let mut bytes = vec![0x01, 0x01, 0xFF]; // name: one byte, not valid UTF-8
    let offset = bytes.len() - 1;
    bytes.extend_from_slice(&[0x00, 0x00]);
    assert_eq!(
        exports_of(&bytes),
        Err(ParseError { offset, kind: ParseErrorKind::InvalidUtf8 })
    );
}

#[test]
fn exports_rejects_trailing_bytes() {
    let bytes = [0x00, 0xAA];
    assert_eq!(
        exports_of(&bytes),
        Err(ParseError { offset: 1, kind: ParseErrorKind::SectionSizeMismatch })
    );
}

#[test]
fn rejects_truncated_export_section() {
    let mut bytes = vec![0x01];
    bytes.extend(name_bytes("run"));
    let offset = bytes.len();
    assert_eq!(
        exports_of(&bytes),
        Err(ParseError { offset, kind: ParseErrorKind::UnexpectedEof })
    );
}

#[test]
fn exports_reports_offsets_relative_to_the_base() {
    let bytes = [0x01, 0x01, 0xFF];
    assert_eq!(
        decode_export_section(&bytes, 100),
        Err(ParseError { offset: 102, kind: ParseErrorKind::InvalidUtf8 })
    );
}

#[test]
fn rejects_malformed_export_index() {
    let mut bytes = vec![0x01];
    bytes.extend(name_bytes("run"));
    bytes.push(0x00);
    let offset = bytes.len();
    bytes.push(0x80);
    assert_eq!(exports_of(&bytes), Err(ParseError { offset, kind: ParseErrorKind::Leb }));
}
