use hex_codec::hex::{from_hex, to_hex, to_hex_multiple, Hex, HexError};

#[test]
fn test_to_hex() {
    assert_eq!(to_hex(&[0, 0, 0, 0]), "00000000");
    assert_eq!(to_hex(&[10, 11, 12, 13]), "0a0b0c0d");
    assert_eq!(to_hex(&[0, 0, 0, 255]), "000000ff");
}

#[test]
fn test_from_hex() {
    assert_eq!(from_hex("00000000").unwrap(), vec![0, 0, 0, 0]);
    assert_eq!(from_hex("0a0b0c0d").unwrap(), vec![10, 11, 12, 13]);
    assert_eq!(from_hex(" 0a0b0c0d  ").unwrap(), vec![10, 11, 12, 13]);
    assert_eq!(from_hex("000000ff").unwrap(), vec![0, 0, 0, 255]);
    assert_eq!(from_hex("0x800000ff").unwrap(), vec![128, 0, 0, 255]);
    assert!(from_hex("800").is_err()); // Odd number of bytes
    assert!(from_hex("8080gf").is_err()); // Invalid hex character g
                                          // unicode strings have odd lengths and can cause panics
    assert!(from_hex("🖖🥴").is_err());
}

#[test]
fn test_to_hex_multiple() {
    let ba = [vec![16u8, 32], vec![48, 64]];
    let hexed = to_hex_multiple(&ba);
    assert_eq!(hexed, ["1020", "3040"]);
}

#[test]
fn length_error() {
    let result = from_hex("800");
    assert!(result.is_err());
    let err = result.unwrap_err();
    assert!(matches!(err, HexError::LengthError));
    // Check that message is the doc message above
    assert_eq!(err.message(), "Hex string lengths must be a multiple of 2");
}

#[test]
fn character_error() {
    let result = from_hex("1234567890ABCDEFG1");
    assert!(result.is_err());
    let err = result.unwrap_err();
    assert!(matches!(err, HexError::InvalidCharacter(_)));
    assert_eq!(err.message(), "Only hexadecimal characters (0-9,a-f) are permitted");
}

#[test]
fn round_trip_every_byte() {
    let bytes: Vec<u8> = (0..=255u8).collect();
    let hexed = to_hex(&bytes);
    assert_eq!(hexed.len(), 2 * bytes.len());
    assert_eq!(from_hex(&hexed).unwrap(), bytes);
}

#[test]
fn length_is_twice_input() {
    assert_eq!(to_hex(&[]).len(), 0);
    assert_eq!(to_hex(&[7]).len(), 2);
    assert_eq!(to_hex(&[1, 2, 3, 4, 5]).len(), 10);
}

#[test]
fn whitespace_and_prefix_equivalence() {
    let plain = from_hex("0a0b0c0d").unwrap();
    assert_eq!(from_hex(" 0a0b0c0d  ").unwrap(), plain);
    assert_eq!(from_hex("0x0a0b0c0d").unwrap(), plain);
    assert_eq!(from_hex("\t0a0b0c0d\r\n").unwrap(), plain);
}

#[test]
fn empty_inputs() {
    assert_eq!(to_hex(&[]), "");
    assert_eq!(from_hex("").unwrap(), Vec::<u8>::new());
    assert_eq!(from_hex("   ").unwrap(), Vec::<u8>::new());
    assert_eq!(from_hex("0x").unwrap(), Vec::<u8>::new());
    assert_eq!(to_hex_multiple(&[]), Vec::<String>::new());
}

#[test]
fn uppercase_digits_accepted() {
    assert_eq!(from_hex("FF").unwrap(), vec![255]);
    assert_eq!(from_hex("0xAB").unwrap(), vec![171]);
}

#[test]
fn invalid_character_payload() {
    assert_eq!(from_hex("8080gf").unwrap_err(), HexError::InvalidCharacter(b'g'));
    // a sign is not a hexadecimal digit
    assert_eq!(from_hex("+f").unwrap_err(), HexError::InvalidCharacter(b'+'));
}

#[test]
fn conversion_error_on_multibyte_text() {
    let err = from_hex("🖖🥴").unwrap_err();
    assert!(matches!(err, HexError::HexConversionError));
    assert_eq!(err.message(), "Invalid hex representation for the target type");
}

#[test]
fn odd_length_checked_before_multibyte_text() {
    // three bytes once encoded, so the length check fires first
    let err = from_hex("é1").unwrap_err();
    assert!(matches!(err, HexError::LengthError));
}

#[test]
fn unicode_whitespace_is_trimmed() {
    // the line separator is whitespace, so it is trimmed away before the
    // length check; the input is still rejected for its multi-byte character
    let err = from_hex("\u{2028}0a").unwrap_err();
    assert!(matches!(err, HexError::HexConversionError));
    // with one more digit the trimmed text has odd length, which fires first
    let err = from_hex("\u{2028}0a0").unwrap_err();
    assert!(matches!(err, HexError::LengthError));
    // two- and three-byte whitespace at either end is trimmed alike
    let err = from_hex(" \u{a0}0a\u{3000}").unwrap_err();
    assert!(matches!(err, HexError::HexConversionError));
    let err = from_hex("\u{85}0").unwrap_err();
    assert!(matches!(err, HexError::LengthError));
}

#[test]
fn non_whitespace_multibyte_ends_not_trimmed() {
    // à and † end in the same bytes as some whitespace encodings but are
    // not whitespace, so they stay: à alone would decode to nothing if it
    // were wrongly trimmed, and † leaves five bytes, an odd length
    assert!(matches!(from_hex("à").unwrap_err(), HexError::HexConversionError));
    assert!(matches!(from_hex("0a†").unwrap_err(), HexError::LengthError));
}

#[test]
fn prefix_not_dropped_twice() {
    // only the first 0x marker is dropped; the second is a parse failure
    let err = from_hex("0x0x0a").unwrap_err();
    assert_eq!(err, HexError::InvalidCharacter(b'x'));
}

struct Pair {
    bytes: [u8; 2],
}

impl Hex for Pair {
    fn from_hex(hex: &str) -> Result<Self, HexError> {
        let v = from_hex(hex)?;
        if v.len() != 2 {
            return Err(HexError::HexConversionError);
        }
        Ok(Pair { bytes: [v[0], v[1]] })
    }

    fn to_hex(&self) -> String {
        to_hex(&self.bytes)
    }
}

#[test]
fn hex_capability_round_trip() {
    let p = Pair { bytes: [0xde, 0xad] };
    let text = p.to_hex();
    assert_eq!(text, "dead");
    let q = Pair::from_hex(&text).unwrap();
    assert_eq!(q.bytes, p.bytes);
    assert!(matches!(Pair::from_hex("0a0b0c"), Err(HexError::HexConversionError)));
}
