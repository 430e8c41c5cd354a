use sdr_pdu::hex::{
    hex_bytes_slicing_fails, hex_pairs_slicing_fails, parse_hex_byte, parse_hex_bytes,
    parse_hex_bytes_even, HexError,
};

#[test]
fn utils_test_hex_parsing() {
    assert_eq!(parse_hex_byte("0x55").unwrap(), 0x55);
    assert_eq!(parse_hex_byte("55").unwrap(), 0x55);
    assert_eq!(
        parse_hex_bytes("0x1ACFFC1D").unwrap(),
        vec![0x1A, 0xCF, 0xFC, 0x1D]
    );
    assert_eq!(parse_hex_bytes("7E").unwrap(), vec![0x7E]);
    assert_eq!(parse_hex_bytes("7").unwrap(), vec![0x07]);
}

#[test]
fn modulator_test_hex_parsing() {
    assert_eq!(parse_hex_byte("0x55").unwrap(), 0x55);
    assert_eq!(parse_hex_byte("55").unwrap(), 0x55);
    assert_eq!(parse_hex_bytes("0x1ACFFC1D").unwrap(), vec![0x1A, 0xCF, 0xFC, 0x1D]);
    assert_eq!(parse_hex_bytes("7E").unwrap(), vec![0x7E]);
    assert_eq!(parse_hex_bytes("7").unwrap(), vec![0x07]);
}

#[test]
fn hex_byte_errors() {
    assert_eq!(parse_hex_byte("0x555"), Err(HexError::InvalidHexByte(b"555".to_vec())));
    assert_eq!(parse_hex_byte(""), Err(HexError::ParseError(vec![])));
    assert_eq!(parse_hex_byte("0x"), Err(HexError::ParseError(vec![])));
    assert_eq!(parse_hex_byte("G1"), Err(HexError::ParseError(b"G1".to_vec())));
    assert_eq!(parse_hex_byte("+"), Err(HexError::ParseError(b"+".to_vec())));
    assert_eq!(parse_hex_byte("-1"), Err(HexError::ParseError(b"-1".to_vec())));
    assert_eq!(parse_hex_byte("é"), Err(HexError::ParseError("é".as_bytes().to_vec())));
}

#[test]
fn hex_byte_prefixes_and_sign() {
    assert_eq!(parse_hex_byte("0X7e"), Ok(0x7E));
    assert_eq!(parse_hex_byte("0x0x0Xff"), Ok(0xFF));
    assert_eq!(parse_hex_byte("+f"), Ok(0x0F));
    assert_eq!(parse_hex_byte("a"), Ok(0x0A));
    assert_eq!(parse_hex_byte("0x0"), Ok(0x00));
}

#[test]
fn hex_bytes_cases() {
    assert_eq!(parse_hex_bytes(""), Ok(vec![]));
    assert_eq!(parse_hex_bytes("0x"), Ok(vec![]));
    assert_eq!(parse_hex_bytes("abc"), Ok(vec![0x0A, 0xBC]));
    assert_eq!(parse_hex_bytes("0x12zz"), Err(HexError::ParseError(b"zz".to_vec())));
    assert_eq!(parse_hex_bytes("+a"), Ok(vec![0x0A]));
    assert_eq!(parse_hex_bytes("aé"), Err(HexError::ParseError("é".as_bytes().to_vec())));
    // An odd count is padded first, so the failing group may hold the pad.
    assert_eq!(parse_hex_bytes("z12"), Err(HexError::ParseError(b"0z".to_vec())));
    assert_eq!(parse_hex_bytes("0x1234G6"), Err(HexError::ParseError(b"G6".to_vec())));
}

#[test]
fn hex_bytes_even_cases() {
    assert_eq!(parse_hex_bytes_even(""), Ok(vec![]));
    assert_eq!(parse_hex_bytes_even("00ff10"), Ok(vec![0x00, 0xFF, 0x10]));
    assert_eq!(parse_hex_bytes_even("0x12"), Err(HexError::ParseError(b"0x".to_vec())));
    assert_eq!(parse_hex_bytes_even("zz12"), Err(HexError::ParseError(b"zz".to_vec())));
}

#[test]
fn hex_slicing_checks() {
    assert!(!hex_bytes_slicing_fails("0x1ACFFC1D"));
    assert!(!hex_bytes_slicing_fails("7"));
    assert!(!hex_bytes_slicing_fails("aé"));
    assert!(hex_bytes_slicing_fails("éa"));
    assert!(hex_pairs_slicing_fails("abc"));
    assert!(!hex_pairs_slicing_fails("zzc"));
    assert!(!hex_pairs_slicing_fails("abcd"));
}
