use csim::{decode, parse_hex, DecodeError, Instr};

#[test]
fn decode_load_with_comma() {
    assert_eq!(decode("L 10,"), Ok(Instr::Load(0x10)));
}

#[test]
fn decode_store_without_comma() {
    assert_eq!(decode("S ff"), Ok(Instr::Store(0xff)));
}

#[test]
fn decode_modify_mixed_case_hex() {
    assert_eq!(decode("M 1A2b,"), Ok(Instr::Modify(0x1a2b)));
}

#[test]
fn decode_bad_op_char() {
    assert_eq!(decode("X 10,"), Err(DecodeError::BadOpChar));
}

#[test]
fn decode_missing_space() {
    assert_eq!(decode("L10,"), Err(DecodeError::MissingSeparator));
}

#[test]
fn decode_empty_line() {
    assert_eq!(decode(""), Err(DecodeError::BadOpChar));
}

#[test]
fn decode_op_only() {
    assert_eq!(decode("L"), Err(DecodeError::MissingSeparator));
}

#[test]
fn decode_bad_hex_digit() {
    assert_eq!(decode("L 1g,"), Err(DecodeError::BadHexDigit));
}

#[test]
fn decode_empty_hex_run_is_zero() {
    assert_eq!(decode("L "), Ok(Instr::Load(0)));
    assert_eq!(decode("S ,junk"), Ok(Instr::Store(0)));
}

#[test]
fn decode_wraps_in_64_bits() {
    assert_eq!(
        decode("L 12345678901234567890"),
        Ok(Instr::Load(0x5678901234567890))
    );
}

#[test]
fn from_string_well_formed() {
    assert_eq!(Instr::from_string(&"S 2f".to_string()), Instr::Store(0x2f));
    assert_eq!(Instr::from_string(&"M 0,".to_string()), Instr::Modify(0));
}

#[test]
fn parse_hex_stops_at_comma() {
    assert_eq!(parse_hex("abc,def", 0), Some(0xabc));
}

#[test]
fn parse_hex_rejects_non_digit() {
    assert_eq!(parse_hex("xyz", 0), None);
}

#[test]
fn parse_hex_from_offset() {
    assert_eq!(parse_hex("L 40,", 2), Some(0x40));
}
