//! Stream-level tests of the bit assembler against the worked examples of
//! the standard.
use qrqrpar::bits::Bits;
use qrqrpar::types::{QrError, Version};

#[test]
fn test_push_number() {
    let mut bits = Bits::new(Version::Normal(1));

    bits.push_number_checked(3, 0b010).unwrap();
    bits.push_number_checked(3, 0b110).unwrap();
    bits.push_number_checked(3, 0b101).unwrap();
    bits.push_number_checked(7, 0b001_1010).unwrap();
    bits.push_number_checked(4, 0b1100).unwrap();
    bits.push_number_checked(12, 0b1011_0110_1101).unwrap();
    bits.push_number_checked(10, 0b01_1001_0001).unwrap();
    bits.push_number_checked(15, 0b111_0010_1110_0011).unwrap();

    let bytes = bits.into_bytes();

    assert_eq!(
        bytes,
        vec![
            0b0101_1010, // 90
            0b1001_1010, // 154
            0b1100_1011, // 203
            0b0110_1101, // 109
            0b0110_0100, // 100
            0b0111_1001, // 121
            0b0111_0001, // 113
            0b1000_0000, // 128
        ]
    );
}

#[test]
fn test_iso_18004_2006_example_1() {
    let mut bits = Bits::new(Version::Normal(1));
    assert_eq!(bits.push_numeric_data(b"01234567"), Ok(()));
    assert_eq!(
        bits.into_bytes(),
        vec![0b0001_0000, 0b0010_0000, 0b00001100, 0b01010110, 0b01_100001, 0b1000_0000]
    );
}

#[test]
fn test_iso_18004_2000_example_2() {
    let mut bits = Bits::new(Version::Normal(1));
    assert_eq!(bits.push_numeric_data(b"0123456789012345"), Ok(()));
    assert_eq!(
        bits.into_bytes(),
        vec![
            0b0001_0000,
            0b0100_0000,
            0b00001100,
            0b01010110,
            0b01_101010,
            0b0110_1110,
            0b0001_0100,
            0b11101010,
            0b0101_0000,
        ]
    );
}

#[test]
fn test_iso_18004_2006_example_2() {
    let mut bits = Bits::new(Version::Micro(3));
    assert_eq!(bits.push_numeric_data(b"0123456789012345"), Ok(()));
    assert_eq!(
        bits.into_bytes(),
        vec![
            0b0010_0000,
            0b00000110,
            0b0_0101011,
            0b001_10101,
            0b0011_0111,
            0b0000_1010,
            0b01110101,
            0b0010_1000,
        ]
    );
}

#[test]
fn test_data_too_long_error() {
    let mut bits = Bits::new(Version::Micro(1));
    assert_eq!(bits.push_numeric_data(b"12345678"), Err(QrError::DataTooLong));
}

#[test]
fn test_iso_18004_2006_example() {
    let mut bits = Bits::new(Version::Normal(1));
    assert_eq!(bits.push_alphanumeric_data(b"AC-42"), Ok(()));
    assert_eq!(
        bits.into_bytes(),
        vec![0b0010_0000, 0b0010_1001, 0b11001110, 0b11100111, 0b001_00001, 0b0000_0000]
    );
}

#[test]
fn test_micro_qr_unsupported() {
    let mut bits = Bits::new(Version::Micro(1));
    assert_eq!(bits.push_alphanumeric_data(b"A"), Err(QrError::UnsupportedCharacterSet));
}

#[test]
fn test_data_too_long() {
    let mut bits = Bits::new(Version::Micro(2));
    assert_eq!(bits.push_alphanumeric_data(b"ABCDEFGH"), Err(QrError::DataTooLong));
}

#[test]
fn test() {
    let mut bits = Bits::new(Version::Normal(1));
    assert_eq!(bits.push_byte_data(b"\x12\x34\x56\x78\x9a\xbc\xde\xf0"), Ok(()));
    assert_eq!(
        bits.into_bytes(),
        vec![
            0b0100_0000,
            0b1000_0001,
            0b0010_0011,
            0b0100_0101,
            0b0110_0111,
            0b1000_1001,
            0b1010_1011,
            0b1100_1101,
            0b1110_1111,
            0b0000_0000,
        ]
    );
}

#[test]
fn bits_test_micro_qr_unsupported() {
    let mut bits = Bits::new(Version::Micro(2));
    assert_eq!(bits.push_byte_data(b"?"), Err(QrError::UnsupportedCharacterSet));
}

#[test]
fn bits_test_data_too_long() {
    let mut bits = Bits::new(Version::Micro(3));
    assert_eq!(bits.push_byte_data(b"0123456701234567"), Err(QrError::DataTooLong));
}

#[test]
fn test_iso_18004_example() {
    let mut bits = Bits::new(Version::Normal(1));
    assert_eq!(bits.push_kanji_data(b"\x93\x5f\xe4\xaa"), Ok(()));
    assert_eq!(
        bits.into_bytes(),
        vec![0b1000_0000, 0b0010_0110, 0b11001111, 0b1_1101010, 0b1010_1000]
    );
}

#[test]
fn kanji_test_micro_qr_unsupported() {
    let mut bits = Bits::new(Version::Micro(2));
    assert_eq!(bits.push_kanji_data(b"?"), Err(QrError::UnsupportedCharacterSet));
}

#[test]
fn kanji_test_data_too_long() {
    let mut bits = Bits::new(Version::Micro(3));
    assert_eq!(
        bits.push_kanji_data(b"\x93_\x93_\x93_\x93_\x93_\x93_\x93_\x93_"),
        Err(QrError::DataTooLong)
    );
}

#[test]
fn test_micro_one_numeric_header() {
    // Micro(1) spends no mode indicator bits and a three-bit count field
    let mut bits = Bits::new(Version::Micro(1));
    assert_eq!(bits.push_numeric_data(b"123"), Ok(()));
    // 011 then 0001111011, packed big-endian
    assert_eq!(bits.into_bytes(), vec![0b0110_0011, 0b1101_1000]);
}

#[test]
fn test_terminator_pads_to_capacity() {
    // Normal(1)/L has 152 data bits, so the padded stream is 19 bytes
    let mut bits = Bits::new(Version::Normal(1));
    bits.push_numeric_data(b"01234567").unwrap();
    bits.push_terminator(qrqrpar::types::EcLevel::L).unwrap();
    let bytes = bits.into_bytes();
    assert_eq!(bytes.len(), 19);
    // terminator, byte padding, then alternating 0xEC 0x11
    assert_eq!(bytes[6], 0xEC);
    assert_eq!(bytes[7], 0x11);
    assert_eq!(bytes[18], 0xEC);
}

#[test]
fn test_invalid_alphanumeric_character() {
    let mut bits = Bits::new(Version::Normal(1));
    assert_eq!(bits.push_alphanumeric_data(b"a"), Err(QrError::InvalidCharacter));
}

#[test]
fn test_invalid_kanji_odd_length() {
    let mut bits = Bits::new(Version::Normal(1));
    assert_eq!(bits.push_kanji_data(b"\x93"), Err(QrError::InvalidCharacter));
}

#[test]
fn test_push_number_checked_rejects_wide_values() {
    let mut bits = Bits::new(Version::Normal(1));
    assert_eq!(bits.push_number_checked(17, 0), Err(QrError::DataTooLong));
    assert_eq!(bits.push_number_checked(4, 16), Err(QrError::DataTooLong));
    assert_eq!(bits.push_number_checked(4, 15), Ok(()));
}
