use byteorder::ByteOrder;
use motor::binary::ExternalKind;
use motor::binary::LocalEntry;
use motor::binary::Module;
use motor::binary::ParseError;
use motor::binary::Section;
use motor::binary::ValueType;
use motor::binary::read_le_u32;

fn header() -> Vec<u8> {
    vec![0x00, 0x61, 0x73, 0x6d, 0x01, 0x00, 0x00, 0x00]
}

fn module_with(sections: &[&[u8]]) -> Vec<u8> {
    let mut bytes = header();
    for s in sections {
        bytes.extend_from_slice(s);
    }
    bytes
}

#[test]
fn bad_magic_reports_value() {
    let bytes = vec![0x01, 0x02, 0x03, 0x04, 0xff, 0xff];
    assert_eq!(Module::parse(&bytes), Err(ParseError::BadMagic(0x0403_0201)));
}

#[test]
fn bad_magic_all_ones() {
    let bytes = vec![0xff, 0xff, 0xff, 0xff];
    assert_eq!(Module::parse(&bytes), Err(ParseError::BadMagic(0xffff_ffff)));
}

#[test]
fn unsupported_version_reports_value() {
    let bytes = vec![0x00, 0x61, 0x73, 0x6d, 0x02, 0x00, 0x00, 0x00];
    assert_eq!(Module::parse(&bytes), Err(ParseError::UnsupportedVersion(2)));
}

#[test]
fn truncated_header() {
    assert_eq!(Module::parse(&vec![]), Err(ParseError::Truncated));
    assert_eq!(Module::parse(&vec![0x00, 0x61, 0x73]), Err(ParseError::Truncated));
    assert_eq!(Module::parse(&vec![0x00, 0x61, 0x73, 0x6d, 0x01]), Err(ParseError::Truncated));
}

#[test]
fn minimal_module_has_no_sections() {
    let m = Module::parse(&header()).unwrap();
    assert_eq!(m.magic_number, 0x6d73_6100);
    assert_eq!(m.version, 1);
    assert!(m.sections.is_empty());
}

#[test]
fn magic_bytes_little_endian() {
    let bytes = header();
    assert_eq!(read_le_u32(&bytes, 0), 0x6d73_6100);
    assert_eq!(read_le_u32(&bytes, 4), 1);
    let mut written = vec![0u8; 4];
    byteorder::LittleEndian::write_u32(&mut written, 0x6d73_6100);
    assert_eq!(&written, &bytes[0..4]);
}

#[test]
fn type_section_two_i32_params_i32_return() {
    // id 1, payload: count 1; form -0x20; two I32 params; I32 return.
    let sec: &[u8] = &[0x01, 0x07, 0x01, 0x60, 0x02, 0x7f, 0x7f, 0x01, 0x7f];
    let m = Module::parse(&module_with(&[sec])).unwrap();
    assert_eq!(m.sections.len(), 1);
    match &m.sections[0] {
        Section::Type { entries } => {
            assert_eq!(entries.len(), 1);
            assert_eq!(entries[0].form, -0x20);
            assert_eq!(entries[0].param_types, vec![ValueType::I32, ValueType::I32]);
            assert_eq!(entries[0].return_type, Some(ValueType::I32));
        },
        other => panic!("expected a type section, got {:?}", other),
    }
}

#[test]
fn type_section_no_return() {
    let sec: &[u8] = &[0x01, 0x04, 0x01, 0x60, 0x01, 0x7e, 0x00];
    let m = Module::parse(&module_with(&[sec])).unwrap();
    match &m.sections[0] {
        Section::Type { entries } => {
            assert_eq!(entries[0].param_types, vec![ValueType::I64]);
            assert_eq!(entries[0].return_type, None);
        },
        other => panic!("expected a type section, got {:?}", other),
    }
}

#[test]
fn invalid_value_type_aborts() {
    let sec: &[u8] = &[0x01, 0x03, 0x01, 0x60, 0x01, 0x05];
    assert_eq!(Module::parse(&module_with(&[sec])), Err(ParseError::InvalidValueType(5)));
}

#[test]
fn function_section_indices() {
    let sec: &[u8] = &[0x03, 0x03, 0x02, 0x00, 0x01];
    let m = Module::parse(&module_with(&[sec])).unwrap();
    match &m.sections[0] {
        Section::Function { types } => assert_eq!(types, &vec![0u32, 1u32]),
        other => panic!("expected a function section, got {:?}", other),
    }
}

#[test]
fn memory_section_limits() {
    // Two entries: one with a maximum, one without.
    let sec: &[u8] = &[0x05, 0x06, 0x02, 0x01, 0x02, 0x03, 0x00, 0x04];
    let m = Module::parse(&module_with(&[sec])).unwrap();
    match &m.sections[0] {
        Section::Memory { entries } => {
            assert_eq!(entries.len(), 2);
            assert_eq!(entries[0].limits.initial, 2);
            assert_eq!(entries[0].limits.maximum, Some(3));
            assert_eq!(entries[1].limits.initial, 4);
            assert_eq!(entries[1].limits.maximum, None);
        },
        other => panic!("expected a memory section, got {:?}", other),
    }
}

#[test]
fn export_entry_main_function() {
    let sec: &[u8] = &[0x07, 0x08, 0x01, 0x04, b'm', b'a', b'i', b'n', 0x00, 0x00];
    let m = Module::parse(&module_with(&[sec])).unwrap();
    match &m.sections[0] {
        Section::Export { entries } => {
            assert_eq!(entries.len(), 1);
            assert_eq!(entries[0].field_name, "main");
            assert_eq!(entries[0].kind, ExternalKind::Function);
            assert_eq!(entries[0].index, 0);
        },
        other => panic!("expected an export section, got {:?}", other),
    }
}

#[test]
fn export_name_invalid_utf8_aborts() {
    let sec: &[u8] = &[0x07, 0x06, 0x01, 0x02, 0xff, 0xfe, 0x00, 0x00];
    assert_eq!(Module::parse(&module_with(&[sec])), Err(ParseError::Utf8Error));
}

#[test]
fn export_name_multibyte_utf8() {
    // "é" is two UTF-8 bytes but one character.
    let sec: &[u8] = &[0x07, 0x06, 0x01, 0x02, 0xc3, 0xa9, 0x02, 0x01];
    let m = Module::parse(&module_with(&[sec])).unwrap();
    match &m.sections[0] {
        Section::Export { entries } => {
            assert_eq!(entries[0].field_name, "\u{e9}");
            assert_eq!(entries[0].kind, ExternalKind::Memory);
            assert_eq!(entries[0].index, 1);
        },
        other => panic!("expected an export section, got {:?}", other),
    }
}

#[test]
fn invalid_external_kind_aborts() {
    let sec: &[u8] = &[0x07, 0x05, 0x01, 0x01, b'x', 0x09, 0x00];
    assert_eq!(Module::parse(&module_with(&[sec])), Err(ParseError::InvalidExternalKind(9)));
}

#[test]
fn custom_section_skipped() {
    // Payload length 6 covers the name length byte, "abc", and two bytes.
    let custom: &[u8] = &[0x00, 0x06, 0x03, b'a', b'b', b'c', 0xaa, 0xbb];
    let start: &[u8] = &[0x08, 0x01, 0x02];
    let m = Module::parse(&module_with(&[custom, start])).unwrap();
    assert_eq!(m.sections, vec![Section::Custom, Section::Start { index: 2 }]);
}

#[test]
fn custom_section_name_longer_than_payload_aborts() {
    let custom: &[u8] = &[0x00, 0x02, 0x05, b'a', b'b', b'c'];
    assert_eq!(Module::parse(&module_with(&[custom])), Err(ParseError::DecodeError));
}

#[test]
fn unknown_section_keeps_id() {
    let sec: &[u8] = &[0x04, 0x02, 0xde, 0xad];
    let m = Module::parse(&module_with(&[sec])).unwrap();
    assert_eq!(m.sections, vec![Section::Unknown { id: 4 }]);
}

#[test]
fn unknown_section_truncated_payload() {
    let sec: &[u8] = &[0x04, 0x05, 0xde, 0xad];
    assert_eq!(Module::parse(&module_with(&[sec])), Err(ParseError::Truncated));
}

#[test]
fn section_id_truncated_mid_varint() {
    let mut bytes = header();
    bytes.push(0x80);
    assert_eq!(Module::parse(&bytes), Err(ParseError::Truncated));
}

#[test]
fn code_section_locals_and_body() {
    // One body: one run of two I32 locals, then the recognized return
    // opcode and the end marker.
    let sec: &[u8] = &[0x0a, 0x07, 0x01, 0x05, 0x01, 0x02, 0x7f, 0x0f, 0x0b];
    let m = Module::parse(&module_with(&[sec])).unwrap();
    match &m.sections[0] {
        Section::Code { bodies } => {
            assert_eq!(bodies.len(), 1);
            assert_eq!(bodies[0].locals, vec![LocalEntry { count: 2, ty: ValueType::I32 }]);
            assert_eq!(bodies[0].code, vec![0x0f]);
        },
        other => panic!("expected a code section, got {:?}", other),
    }
}

#[test]
fn code_section_missing_end_marker() {
    let sec: &[u8] = &[0x0a, 0x04, 0x01, 0x02, 0x00, 0x0f];
    assert_eq!(Module::parse(&module_with(&[sec])), Err(ParseError::Truncated));
}

#[test]
fn find_start_func_returns_designated_body() {
    let start: &[u8] = &[0x08, 0x01, 0x00];
    let code: &[u8] = &[0x0a, 0x05, 0x01, 0x03, 0x00, 0x0f, 0x0b];
    let m = Module::parse(&module_with(&[start, code])).unwrap();
    let body = m.find_start_func().expect("start function should resolve");
    assert!(body.locals.is_empty());
    assert_eq!(body.code, vec![0x0f]);
}

#[test]
fn find_start_func_without_start_section() {
    let code: &[u8] = &[0x0a, 0x05, 0x01, 0x03, 0x00, 0x0f, 0x0b];
    let m = Module::parse(&module_with(&[code])).unwrap();
    assert!(m.find_start_func().is_none());
}

#[test]
fn find_start_func_without_code_section() {
    let start: &[u8] = &[0x08, 0x01, 0x00];
    let m = Module::parse(&module_with(&[start])).unwrap();
    assert!(m.find_start_func().is_none());
}

#[test]
fn find_start_func_index_out_of_range() {
    let start: &[u8] = &[0x08, 0x01, 0x05];
    let code: &[u8] = &[0x0a, 0x05, 0x01, 0x03, 0x00, 0x0f, 0x0b];
    let m = Module::parse(&module_with(&[start, code])).unwrap();
    assert!(m.find_start_func().is_none());
}

#[test]
fn find_start_func_last_start_wins() {
    let start0: &[u8] = &[0x08, 0x01, 0x05];
    let start1: &[u8] = &[0x08, 0x01, 0x00];
    let code: &[u8] = &[0x0a, 0x05, 0x01, 0x03, 0x00, 0x0f, 0x0b];
    let m = Module::parse(&module_with(&[start0, start1, code])).unwrap();
    assert!(m.find_start_func().is_some());
}

#[test]
fn find_func_picks_indexed_body() {
    // Two bodies; the second has an empty opcode stream.
    let code: &[u8] = &[0x0a, 0x08, 0x02, 0x03, 0x00, 0x0f, 0x0b, 0x02, 0x00, 0x0b];
    let m = Module::parse(&module_with(&[code])).unwrap();
    let b0 = m.find_func(0).unwrap();
    assert_eq!(b0.code, vec![0x0f]);
    let b1 = m.find_func(1).unwrap();
    assert!(b1.code.is_empty());
    assert!(m.find_func(2).is_none());
}
