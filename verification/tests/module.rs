use wasm_fuel::exports::{Export, ExportKind};
use wasm_fuel::imports::{ExternKind, Import, Limits};
use wasm_fuel::module::{parse, Module};
use wasm_fuel::sections::{ParseError, ParseErrorKind};
use wasm_fuel::types::{FuncType, ValType};

const HEADER: [u8; 8] = [0x00, 0x61, 0x73, 0x6D, 0x01, 0x00, 0x00, 0x00];

fn name_bytes(s: &str) -> Vec<u8> {
    let mut out = vec![s.len() as u8];
    out.extend_from_slice(s.as_bytes());
    out
}

#[test]
fn parses_a_module_with_no_sections() {
    let module = parse(&HEADER).unwrap();
    assert_eq!(module, Module {
        types: vec![],
        imports: vec![],
        function_types: vec![],
        exports: vec![],
        start: None,
    });
}

#[test]
fn parses_a_function_matched_with_its_code_body() {
    let mut bytes = HEADER.to_vec();
    bytes.extend_from_slice(&[0x01, 0x04, 0x01, 0x60, 0x00, 0x00]); // type: () -> ()
    bytes.extend_from_slice(&[0x03, 0x02, 0x01, 0x00]); // function: one, type 0
    bytes.extend_from_slice(&[0x0A, 0x04, 0x01, 0x02, 0x00, 0x0B]); // code: one body

    let module = parse(&bytes).unwrap();
    assert_eq!(module.function_types, vec![0]);
}

#[test]
fn accepts_a_module_with_undecoded_sections() {
    let mut bytes = HEADER.to_vec();
    bytes.extend_from_slice(&[0x04, 0x04, 0x01, 0x70, 0x00, 0x00]); // table: funcref, min 0
    bytes.extend_from_slice(&[0x05, 0x03, 0x01, 0x00, 0x01]); // memory: min 1

    let module = parse(&bytes).unwrap();
    assert_eq!(module.types, Vec::new());
}

#[test]
fn accepts_a_start_index_naming_an_imported_function() {
    let mut bytes = HEADER.to_vec();
    bytes.extend_from_slice(&[0x01, 0x04, 0x01, 0x60, 0x00, 0x00]); // type: () -> ()
    let mut import_bytes = vec![0x01];
    import_bytes.extend(name_bytes("env"));
    import_bytes.extend(name_bytes("f"));
    import_bytes.extend_from_slice(&[0x00, 0x00]); // func import, type 0
    bytes.push(0x02);
    bytes.push(import_bytes.len() as u8);
    bytes.extend(import_bytes);
    bytes.extend_from_slice(&[0x08, 0x01, 0x00]); // start: function 0, the import

    let module = parse(&bytes).unwrap();
    assert_eq!(module.start, Some(0));
}

#[test]
fn rejects_import_type_index_out_of_range() {
    let mut bytes = HEADER.to_vec();
    let mut import_bytes = vec![0x01];
    import_bytes.extend(name_bytes("env"));
    import_bytes.extend(name_bytes("f"));
    import_bytes.extend_from_slice(&[0x00, 0x00]); // func import, type 0 - none exist
    bytes.push(0x02); // import section id
    bytes.push(import_bytes.len() as u8); // size
    let import_section_offset = bytes.len();
    bytes.extend(import_bytes);

    assert_eq!(
        parse(&bytes),
        Err(ParseError { offset: import_section_offset, kind: ParseErrorKind::TypeIndexOutOfRange })
    );
}

#[test]
fn rejects_function_type_index_out_of_range() {
    let mut bytes = HEADER.to_vec();
    bytes.extend_from_slice(&[0x01, 0x01, 0x00]); // type section: zero types
    bytes.push(0x03); // function section id
    bytes.push(0x02); // size
    let function_section_offset = bytes.len();
    bytes.extend_from_slice(&[0x01, 0x00]); // one function, type index 0 - none exist

    assert_eq!(
        parse(&bytes),
        Err(ParseError { offset: function_section_offset, kind: ParseErrorKind::TypeIndexOutOfRange })
    );
}

#[test]
fn rejects_function_section_without_a_matching_code_section() {
    let mut bytes = HEADER.to_vec();
    bytes.extend_from_slice(&[0x01, 0x04, 0x01, 0x60, 0x00, 0x00]); // type: () -> ()
    bytes.push(0x03); // function section id
    bytes.push(0x02); // size
    let function_section_offset = bytes.len();
    bytes.extend_from_slice(&[0x01, 0x00]); // one function, type 0, no code section

    assert_eq!(
        parse(&bytes),
        Err(ParseError { offset: function_section_offset, kind: ParseErrorKind::FunctionCodeMismatch })
    );
}

#[test]
fn rejects_code_section_with_a_different_count_than_the_function_section() {
    let mut bytes = HEADER.to_vec();
    bytes.extend_from_slice(&[0x01, 0x04, 0x01, 0x60, 0x00, 0x00]); // type: () -> ()
    bytes.extend_from_slice(&[0x03, 0x02, 0x01, 0x00]); // function: one, type 0
    bytes.push(0x0A); // code section id
    bytes.push(0x01); // size
    let code_section_offset = bytes.len();
    bytes.push(0x00); // zero bodies

    assert_eq!(
        parse(&bytes),
        Err(ParseError { offset: code_section_offset, kind: ParseErrorKind::FunctionCodeMismatch })
    );
}

#[test]
fn accepts_an_export_naming_a_function_index_it_cannot_yet_check() {
    let mut bytes = HEADER.to_vec();
    let mut export_bytes = vec![0x01];
    export_bytes.extend(name_bytes("run"));
    export_bytes.extend_from_slice(&[0x00, 0x00]); // func export, index 0 - none exist
    bytes.push(0x07);
    bytes.push(export_bytes.len() as u8);
    bytes.extend(export_bytes);

    let module = parse(&bytes).unwrap();
    assert_eq!(module.exports.len(), 1);
}

/// The module from the usage example: an exported `square` function of
/// type (i32) -> i32.
const SQUARE: &[u8] = &[
    0x00, 0x61, 0x73, 0x6D, 0x01, 0x00, 0x00, 0x00,
    0x01, 0x06, 0x01, 0x60, 0x01, 0x7F, 0x01, 0x7F,
    0x03, 0x02, 0x01, 0x00,
    0x07, 0x0A, 0x01, 0x06, 0x73, 0x71, 0x75, 0x61, 0x72, 0x65, 0x00, 0x00,
    0x0A, 0x09, 0x01, 0x07, 0x00, 0x20, 0x00, 0x20, 0x00, 0x6C, 0x0B,
];

#[test]
fn parses_the_square_module() {
    let module = parse(SQUARE).unwrap();
    assert_eq!(module, Module {
        types: vec![FuncType { params: vec![ValType::I32], results: vec![ValType::I32] }],
        imports: vec![],
        function_types: vec![0],
        exports: vec![Export { name: "square".to_string(), kind: ExportKind::Func, index: 0 }],
        start: None,
    });
}

#[test]
fn every_corruption_and_truncation_is_an_error_or_a_module() {
    for len in 0..SQUARE.len() {
        match parse(&SQUARE[..len]) {
            Ok(_) => {}
            Err(e) => assert!(e.offset <= len),
        }
    }
    for i in 0..SQUARE.len() {
        for value in [0x00u8, 0x01, 0x7F, 0x80, 0xFF] {
            let mut bytes = SQUARE.to_vec();
            bytes[i] = value;
            match parse(&bytes) {
                Ok(module) => {
                    for &t in &module.function_types {
                        assert!((t as usize) < module.types.len());
                    }
                }
                Err(e) => assert!(e.offset <= bytes.len()),
            }
        }
    }
}

#[test]
fn section_payload_errors_carry_module_offsets() {
    let mut bytes = HEADER.to_vec();
    bytes.extend_from_slice(&[0x01, 0x02, 0x01, 0x61]); // type: one entry, bad form byte
    assert_eq!(parse(&bytes), Err(ParseError { offset: 11, kind: ParseErrorKind::InvalidFuncType }));

    let mut bytes = HEADER.to_vec();
    bytes.extend_from_slice(&[0x0A, 0x01, 0x80]); // code: malformed count
    assert_eq!(parse(&bytes), Err(ParseError { offset: 10, kind: ParseErrorKind::Leb }));

    let mut bytes = HEADER.to_vec();
    bytes.extend_from_slice(&[0x08, 0x02, 0x00, 0x00]); // start: trailing byte
    assert_eq!(parse(&bytes), Err(ParseError { offset: 11, kind: ParseErrorKind::SectionSizeMismatch }));
}

#[test]
fn later_errors_wait_for_earlier_sections() {
    // The export section is malformed and comes before the code count check.
    let mut bytes = HEADER.to_vec();
    bytes.extend_from_slice(&[0x03, 0x02, 0x01, 0x05]); // function: type 5, none exist
    bytes.extend_from_slice(&[0x07, 0x01, 0x01]); // export: count 1, then nothing
    assert_eq!(parse(&bytes), Err(ParseError { offset: 15, kind: ParseErrorKind::Leb }));
    // Import checks come before function checks.
    let mut bytes = HEADER.to_vec();
    let mut import_bytes = vec![0x01];
    import_bytes.extend(name_bytes("e"));
    import_bytes.extend(name_bytes("m"));
    import_bytes.extend_from_slice(&[0x02, 0x00, 0x03]); // memory import, min 3
    bytes.push(0x02);
    bytes.push(import_bytes.len() as u8);
    bytes.extend(import_bytes);
    bytes.extend_from_slice(&[0x03, 0x02, 0x01, 0x00]);
    let function_offset = bytes.len() - 2;
    assert_eq!(
        parse(&bytes),
        Err(ParseError { offset: function_offset, kind: ParseErrorKind::TypeIndexOutOfRange })
    );
}

#[test]
fn parsed_imports_keep_their_kinds() {
    let mut bytes = HEADER.to_vec();
    bytes.extend_from_slice(&[0x01, 0x04, 0x01, 0x60, 0x00, 0x00]); // type: () -> ()
    let mut import_bytes = vec![0x02];
    import_bytes.extend(name_bytes("e"));
    import_bytes.extend(name_bytes("m"));
    import_bytes.extend_from_slice(&[0x02, 0x01, 0x01, 0x02]); // memory, min 1, max 2
    import_bytes.extend(name_bytes("e"));
    import_bytes.extend(name_bytes("f"));
    import_bytes.extend_from_slice(&[0x00, 0x00]); // func, type 0
    bytes.push(0x02);
    bytes.push(import_bytes.len() as u8);
    bytes.extend(import_bytes);
    let module = parse(&bytes).unwrap();
    assert_eq!(
        module.imports,
        vec![
            Import { module: "e".to_string(), name: "m".to_string(), kind: ExternKind::Memory(Limits { min: 1, max: Some(2) }) },
            Import { module: "e".to_string(), name: "f".to_string(), kind: ExternKind::Func(0) },
        ]
    );
}

#[test]
fn custom_sections_anywhere_change_nothing() {
    let expected = parse(SQUARE).unwrap();
    // Section boundaries in SQUARE: after the header and after each section.
    for &q in &[8usize, 16, 20, 32, SQUARE.len()] {
        for contents in [&b""[..], &b"name"[..], &[0xFF, 0x00, 0x80][..]] {
            let mut bytes = SQUARE[..q].to_vec();
            bytes.push(0x00);
            bytes.push(contents.len() as u8);
            bytes.extend_from_slice(contents);
            bytes.extend_from_slice(&SQUARE[q..]);
            assert_eq!(parse(&bytes), Ok(expected.clone()));
        }
        // A padded size encoding that still reads as the length.
        let mut bytes = SQUARE[..q].to_vec();
        bytes.extend_from_slice(&[0x00, 0x82, 0x00, 0xAA, 0xBB]);
        bytes.extend_from_slice(&SQUARE[q..]);
        assert_eq!(parse(&bytes), Ok(expected.clone()));
    }
}
