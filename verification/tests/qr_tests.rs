//! End-to-end and type-level tests of the encoder.
use qrqrpar::bits::{encode_auto, Bits};
use qrqrpar::types::{Mode, Version};
use qrqrpar::{Color, EcLevel, QrCode};

#[test]
fn test_empty_input_uses_smallest_version() {
    // an empty input fits the smallest Normal symbol with only padding
    let bits = encode_auto(b"", EcLevel::M).unwrap();
    assert_eq!(bits.version(), Version::Normal(1));
    let code = QrCode::new(b"").unwrap();
    assert_eq!(code.version(), Version::Normal(1));
    assert_eq!(code.width(), 21);
    assert_eq!(code.height(), 21);
}

#[test]
fn test_max_capacity_and_one_byte_more() {
    // Normal(40)/L byte mode: 4 + 16 + 8 n <= 23648, so 2953 bytes fit
    let data = vec![b'a'; 2953];
    let bits = encode_auto(&data, EcLevel::L).unwrap();
    assert_eq!(bits.version(), Version::Normal(40));
    let more = vec![b'a'; 2954];
    match encode_auto(&more, EcLevel::L) {
        Ok(_) => panic!("expected overflow"),
        Err(e) => assert_eq!(e, qrqrpar::types::QrError::DataTooLong),
    }
}

#[test]
fn test_module_count_matches_dimensions() {
    let code = QrCode::with_version(b"Some data", Version::Normal(5), EcLevel::M).unwrap();
    let w = code.width();
    let h = code.height();
    assert_eq!(w, 37);
    assert_eq!(h, 37);
    assert_eq!(code.to_colors().len(), w * h);
}

#[test]
fn test_micro_code_dimensions() {
    let code = QrCode::with_version(b"123", Version::Micro(1), EcLevel::L).unwrap();
    assert_eq!(code.width(), 11);
    assert_eq!(code.height(), 11);
    assert_eq!(code.into_colors().len(), 121);
}

#[test]
fn test_rmqr_dimensions() {
    let code = QrCode::rmqr(b"Hello, rmqr!").unwrap();
    let w = code.width();
    let h = code.height();
    assert!(code.version().is_rmqr());
    assert_eq!(code.to_colors().len(), w * h);
}

#[test]
fn test_rmqr_strategies() {
    let data = b"0123456789";
    let by_area = QrCode::rmqr_with_options(data, EcLevel::M, qrqrpar::RmqrStrategy::Area)
        .unwrap();
    let by_width = QrCode::rmqr_with_options(data, EcLevel::M, qrqrpar::RmqrStrategy::Width)
        .unwrap();
    let by_height = QrCode::rmqr_with_options(data, EcLevel::M, qrqrpar::RmqrStrategy::Height)
        .unwrap();
    assert!(by_area.version().is_rmqr());
    assert!(by_width.version().is_rmqr());
    assert!(by_height.version().is_rmqr());
}

#[test]
fn test_rmqr_rejects_low_and_quartile_levels() {
    assert!(QrCode::rmqr_with_options(b"1", EcLevel::L, qrqrpar::RmqrStrategy::Area).is_err());
    assert!(QrCode::rmqr_with_options(b"1", EcLevel::Q, qrqrpar::RmqrStrategy::Area).is_err());
}

#[test]
fn test_mode_join_laws() {
    // joining a mode with itself gives the mode back
    for m in [Mode::Numeric, Mode::Alphanumeric, Mode::Byte, Mode::Kanji] {
        assert_eq!(m.max(m), m);
    }
    // the join is commutative
    for a in [Mode::Numeric, Mode::Alphanumeric, Mode::Byte, Mode::Kanji] {
        for b in [Mode::Numeric, Mode::Alphanumeric, Mode::Byte, Mode::Kanji] {
            assert_eq!(a.max(b), b.max(a));
        }
    }
    // the incomparable pair joins to Byte
    assert_eq!(Mode::Alphanumeric.max(Mode::Kanji), Mode::Byte);
    assert_eq!(Mode::Numeric.max(Mode::Alphanumeric), Mode::Alphanumeric);
}

#[test]
fn test_version_dimensions_and_tables() {
    assert_eq!(Version::Normal(1).width(), 21);
    assert_eq!(Version::Normal(40).width(), 177);
    assert_eq!(Version::Micro(4).width(), 17);
    assert_eq!(Version::Rmqr(7, 43).width(), 43);
    assert_eq!(Version::Rmqr(7, 43).height(), 7);
    assert_eq!(Version::Rmqr(7, 43).area(), 301);
    assert!(Version::Rmqr(7, 27).rmqr_index().is_err());
    assert_eq!(Version::Rmqr(11, 27).rmqr_index(), Ok(10));
    assert_eq!(Version::rmqr_all().len(), 32);
}

#[test]
fn test_length_bits_count() {
    assert_eq!(Mode::Numeric.length_bits_count(Version::Normal(1)), 10);
    assert_eq!(Mode::Byte.length_bits_count(Version::Normal(10)), 16);
    assert_eq!(Mode::Kanji.length_bits_count(Version::Micro(3)), 3);
    assert_eq!(Mode::Numeric.length_bits_count(Version::Rmqr(7, 43)), 4);
}

#[test]
fn test_data_bits_count() {
    assert_eq!(Mode::Numeric.data_bits_count(7), 24);
    assert_eq!(Mode::Alphanumeric.data_bits_count(2), 11);
    assert_eq!(Mode::Byte.data_bits_count(3), 24);
    assert_eq!(Mode::Kanji.data_bits_count(2), 26);
}

#[test]
fn test_color_select() {
    assert_eq!(Color::Light.select(1, 0), 0);
    assert_eq!(Color::Dark.select("black", "white"), "black");
}

#[test]
fn test_to_str_shape() {
    let code = QrCode::new(b"Hello, World!").unwrap();
    let s = code.to_str('#', '.');
    let lines: Vec<&str> = s.lines().collect();
    assert_eq!(lines.len(), code.height());
    for line in lines {
        assert_eq!(line.chars().count(), code.width());
    }
}

#[test]
fn test_auto_version_is_minimal() {
    // 100 digits need more than Normal(1) but fit Normal(3) at level L
    let data = vec![b'7'; 100];
    let bits = encode_auto(&data, EcLevel::L).unwrap();
    assert_eq!(bits.version(), Version::Normal(3));
    // they do not fit the next smaller version
    let mut small = Bits::new(Version::Normal(2));
    small.push_optimal_data(&data).unwrap();
    assert!(small.push_terminator(EcLevel::L).is_err());
}

#[test]
fn test_with_bits_requires_terminated_stream() {
    let bits = Bits::new(Version::Normal(1));
    // an unterminated (empty) stream is not a full symbol payload
    assert!(QrCode::with_bits(bits, EcLevel::M).is_err());
}
