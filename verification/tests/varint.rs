use motor::binary::ParseError;
use motor::binary::Section;
use motor::leb::encode_varuint32;

fn round_trip(v: u32) {
    let bytes = encode_varuint32(v);
    let n = bytes.len();
    assert_eq!(Section::parse_varuint32(&bytes, 0), Ok((v, n)));
}

#[test]
fn varuint32_round_trip_small() {
    round_trip(0);
    round_trip(1);
    round_trip(63);
    round_trip(64);
    round_trip(127);
    round_trip(128);
    round_trip(300);
}

#[test]
fn varuint32_round_trip_large() {
    round_trip(624_485);
    round_trip(0x7fff_ffff);
    round_trip(0x8000_0000);
    round_trip(0xffff_ffff);
}

#[test]
fn varuint32_known_encodings() {
    // 624485 encodes as the classic three-byte example.
    assert_eq!(Section::parse_varuint32(&vec![0xe5, 0x8e, 0x26], 0), Ok((624_485, 3)));
    // A one-byte negative signed value reinterprets as a large unsigned one.
    assert_eq!(Section::parse_varuint32(&vec![0x7f], 0), Ok((0xffff_ffff, 1)));
    // A redundant continuation still decodes.
    assert_eq!(Section::parse_varuint32(&vec![0xc0, 0x00], 0), Ok((64, 2)));
}

#[test]
fn varint7_tags() {
    assert_eq!(Section::parse_varint7(&vec![0x7f], 0), Ok((-1, 1)));
    assert_eq!(Section::parse_varint7(&vec![0x7e], 0), Ok((-2, 1)));
    assert_eq!(Section::parse_varint7(&vec![0x60], 0), Ok((-32, 1)));
    assert_eq!(Section::parse_varint7(&vec![0x05], 0), Ok((5, 1)));
}

#[test]
fn varuint1_flags() {
    assert_eq!(Section::parse_varuint1(&vec![0x00], 0), Ok((0, 1)));
    assert_eq!(Section::parse_varuint1(&vec![0x01], 0), Ok((1, 1)));
}

#[test]
fn varint_truncated_and_malformed() {
    // Empty input ends inside the varint.
    assert_eq!(Section::parse_varuint32(&vec![], 0), Err(ParseError::Truncated));
    // A lone continuation byte runs off the end.
    assert_eq!(Section::parse_varuint32(&vec![0x80], 0), Err(ParseError::Truncated));
    // Ten continuation bytes overflow the 64-bit range.
    assert_eq!(
        Section::parse_varuint32(&vec![0x80; 10], 0),
        Err(ParseError::DecodeError)
    );
}

#[test]
fn encoder_agrees_with_leb128_crate() {
    for v in [0u32, 1, 63, 64, 127, 128, 300, 624_485, 0x7fff_ffff, 0x8000_0000, 0xffff_ffff] {
        // Our encoder read back by the leb128 crate's signed decoder.
        let bytes = encode_varuint32(v);
        let mut r: &[u8] = &bytes;
        let decoded = leb128::read::signed(&mut r).unwrap();
        assert_eq!(decoded, v as i64);
        // The leb128 crate's signed encoder read back by our decoder.
        let mut buf: Vec<u8> = Vec::new();
        leb128::write::signed(&mut buf, v as i64).unwrap();
        let n = buf.len();
        assert_eq!(Section::parse_varuint32(&buf, 0), Ok((v, n)));
    }
}
