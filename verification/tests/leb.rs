use wasm_fuel::leb::{
    read_i32, read_i64, read_signed, read_u32, read_u64, read_unsigned, write_signed,
    write_unsigned, LebError,
};

fn u32_of(bytes: &[u8]) -> Result<u32, LebError> {
    let mut pos = 0;
    let value = read_u32(bytes, &mut pos)?;
    assert_eq!(pos, bytes.len(), "decoder must consume the whole input");
    Ok(value)
}

fn i32_of(bytes: &[u8]) -> Result<i32, LebError> {
    let mut pos = 0;
    let value = read_i32(bytes, &mut pos)?;
    assert_eq!(pos, bytes.len(), "decoder must consume the whole input");
    Ok(value)
}

#[test]
fn decodes_unsigned_values() {
    assert_eq!(u32_of(&[0x00]), Ok(0));
    assert_eq!(u32_of(&[0x01]), Ok(1));
    assert_eq!(u32_of(&[0x7F]), Ok(127));
    assert_eq!(u32_of(&[0x80, 0x01]), Ok(128));
    assert_eq!(u32_of(&[0xE5, 0x8E, 0x26]), Ok(624_485));
    assert_eq!(u32_of(&[0xFF, 0xFF, 0xFF, 0xFF, 0x0F]), Ok(u32::MAX));
}

#[test]
fn decodes_signed_values() {
    assert_eq!(i32_of(&[0x00]), Ok(0));
    assert_eq!(i32_of(&[0x7F]), Ok(-1));
    assert_eq!(i32_of(&[0x3F]), Ok(63));
    assert_eq!(i32_of(&[0x40]), Ok(-64));
    assert_eq!(i32_of(&[0xC0, 0x00]), Ok(64));
    assert_eq!(i32_of(&[0x9B, 0xF1, 0x59]), Ok(-624_485));
    assert_eq!(i32_of(&[0xFF, 0xFF, 0xFF, 0xFF, 0x07]), Ok(i32::MAX));
    assert_eq!(i32_of(&[0x80, 0x80, 0x80, 0x80, 0x78]), Ok(i32::MIN));
}

#[test]
fn rejects_oversized_encodings() {
    // 33 bits of payload.
    assert_eq!(u32_of(&[0xFF, 0xFF, 0xFF, 0xFF, 0x1F]), Err(LebError::Overflow));
    // Six bytes can never encode a u32, even if the value would fit.
    assert_eq!(
        u32_of(&[0x80, 0x80, 0x80, 0x80, 0x80, 0x00]),
        Err(LebError::Overflow)
    );
    // The padding of the last byte must match the sign.
    assert_eq!(i32_of(&[0xFF, 0xFF, 0xFF, 0xFF, 0x0F]), Err(LebError::Overflow));
    assert_eq!(i32_of(&[0x80, 0x80, 0x80, 0x80, 0x08]), Err(LebError::Overflow));
}

#[test]
fn rejects_truncated_input() {
    assert_eq!(u32_of(&[]), Err(LebError::UnexpectedEof));
    assert_eq!(u32_of(&[0x80]), Err(LebError::UnexpectedEof));
    assert_eq!(u32_of(&[0x80, 0x80]), Err(LebError::UnexpectedEof));
    assert_eq!(i32_of(&[0xFF]), Err(LebError::UnexpectedEof));
}

#[test]
fn handles_the_full_64_bit_range() {
    let mut pos = 0;
    let bytes = [0xFF, 0xFF, 0xFF, 0xFF, 0xFF, 0xFF, 0xFF, 0xFF, 0xFF, 0x01];
    assert_eq!(read_u64(&bytes, &mut pos), Ok(u64::MAX));
    assert_eq!(pos, 10);

    let mut pos = 0;
    let bytes = [0xFF, 0xFF, 0xFF, 0xFF, 0xFF, 0xFF, 0xFF, 0xFF, 0xFF, 0x02];
    assert_eq!(read_u64(&bytes, &mut pos), Err(LebError::Overflow));

    let mut pos = 0;
    let bytes = [0x80, 0x80, 0x80, 0x80, 0x80, 0x80, 0x80, 0x80, 0x80, 0x7F];
    assert_eq!(read_i64(&bytes, &mut pos), Ok(i64::MIN));
}

#[test]
fn round_trips_through_the_encoders() {
    let unsigned = [0u64, 1, 63, 64, 127, 128, 300, 624_485, u32::MAX as u64, u64::MAX];
    for &value in &unsigned {
        let mut buf = Vec::new();
        write_unsigned(value, &mut buf);
        let mut pos = 0;
        assert_eq!(read_u64(&buf, &mut pos), Ok(value), "value {}", value);
        assert_eq!(pos, buf.len());
    }

    let signed = [0i64, 1, -1, 63, -64, 64, -65, 624_485, -624_485, i32::MAX as i64, i32::MIN as i64, i64::MAX, i64::MIN];
    for &value in &signed {
        let mut buf = Vec::new();
        write_signed(value, &mut buf);
        let mut pos = 0;
        assert_eq!(read_i64(&buf, &mut pos), Ok(value), "value {}", value);
        assert_eq!(pos, buf.len());
    }
}

#[test]
fn position_advances_across_consecutive_values() {
    let bytes = [0x08, 0xE5, 0x8E, 0x26, 0x7F];
    let mut pos = 0;
    assert_eq!(read_u32(&bytes, &mut pos), Ok(8));
    assert_eq!(pos, 1);
    assert_eq!(read_u32(&bytes, &mut pos), Ok(624_485));
    assert_eq!(pos, 4);
    assert_eq!(read_i32(&bytes, &mut pos), Ok(-1));
    assert_eq!(pos, 5);
}

#[test]
fn documented_examples_decode() {
    let mut pos = 0;
    assert_eq!(read_u32(&[0xE5, 0x8E, 0x26], &mut pos).unwrap(), 624_485);
    assert_eq!(pos, 3);

    let mut pos = 0;
    assert_eq!(read_i32(&[0x7F], &mut pos).unwrap(), -1);

    // 0xFF 0xFF 0xFF 0xFF 0x1F would need 33 bits.
    let mut pos = 0;
    assert!(read_u32(&[0xFF, 0xFF, 0xFF, 0xFF, 0x1F], &mut pos).is_err());
}

#[test]
fn failure_leaves_position_after_the_last_byte_read() {
    // Truncated: everything was read.
    let mut pos = 1;
    assert_eq!(read_u32(&[0x00, 0x80, 0x80], &mut pos), Err(LebError::UnexpectedEof));
    assert_eq!(pos, 3);
    // A sixth byte is never read for a u32.
    let mut pos = 0;
    assert_eq!(read_u32(&[0x80, 0x80, 0x80, 0x80, 0x80, 0x00], &mut pos), Err(LebError::Overflow));
    assert_eq!(pos, 5);
    // Starting past the end reads nothing.
    let mut pos = 7;
    assert_eq!(read_u64(&[0x01], &mut pos), Err(LebError::UnexpectedEof));
    assert_eq!(pos, 7);
}

#[test]
fn narrow_widths_check_the_final_byte() {
    let mut pos = 0;
    assert_eq!(read_unsigned(&[0x7F], &mut pos, 7), Ok(127));
    let mut pos = 0;
    assert_eq!(read_unsigned(&[0x80, 0x01], &mut pos, 7), Err(LebError::Overflow));
    assert_eq!(pos, 1);
    let mut pos = 0;
    assert_eq!(read_unsigned(&[0xFF, 0x01], &mut pos, 8), Ok(255));
    let mut pos = 0;
    assert_eq!(read_unsigned(&[0xFF, 0x03], &mut pos, 8), Err(LebError::Overflow));
    let mut pos = 0;
    assert_eq!(read_signed(&[0x40], &mut pos, 7), Ok(-64));
    let mut pos = 0;
    assert_eq!(read_signed(&[0x3F], &mut pos, 6), Err(LebError::Overflow));
    let mut pos = 0;
    assert_eq!(read_signed(&[0x7F], &mut pos, 1), Ok(-1));
    let mut pos = 0;
    assert_eq!(read_signed(&[0x00], &mut pos, 1), Ok(0));
}

#[test]
fn encoders_write_exact_bytes() {
    let mut buf = vec![0xAA];
    write_unsigned(624_485, &mut buf);
    assert_eq!(buf, vec![0xAA, 0xE5, 0x8E, 0x26]);

    let mut buf = Vec::new();
    write_signed(-624_485, &mut buf);
    assert_eq!(buf, vec![0x9B, 0xF1, 0x59]);

    let mut buf = Vec::new();
    write_signed(64, &mut buf);
    assert_eq!(buf, vec![0xC0, 0x00]);

    let mut buf = Vec::new();
    write_signed(-64, &mut buf);
    assert_eq!(buf, vec![0x40]);

    let mut buf = Vec::new();
    write_unsigned(u64::MAX, &mut buf);
    assert_eq!(buf.len(), 10);
}

#[test]
fn round_trip_holds_wherever_the_value_sits() {
    let values = [0u64, 127, 128, 16_383, 16_384, u32::MAX as u64, u64::MAX];
    for &value in &values {
        let mut buf = vec![0x80, 0x11];
        write_unsigned(value, &mut buf);
        let end = buf.len();
        buf.extend_from_slice(&[0xFF, 0x00]);
        let mut pos = 2;
        assert_eq!(read_u64(&buf, &mut pos), Ok(value));
        assert_eq!(pos, end);
    }
    let values = [0i64, -1, 63, -64, 64, -65, i64::MAX, i64::MIN];
    for &value in &values {
        let mut buf = vec![0x80];
        write_signed(value, &mut buf);
        let end = buf.len();
        buf.push(0xFF);
        let mut pos = 1;
        assert_eq!(read_i64(&buf, &mut pos), Ok(value));
        assert_eq!(pos, end);
    }
}

#[test]
fn errors_describe_themselves() {
    assert_eq!(LebError::UnexpectedEof.to_string(), "truncated LEB128 value");
    assert_eq!(LebError::Overflow.to_string(), "LEB128 value too large for its type");
}
