use mshnum::error::{ConfigError, Endianness, ErrorKind, ParseError, ValueType};
use mshnum::num_parsers::{
    construct_usize_parser, float_parser, int_parser, uint_parser, FloatRaw,
};

#[test]
fn be_u64_yields_42_and_empty_remainder() {
    let d = uint_parser(8, Some(Endianness::Big), u64::MAX as u128).unwrap();
    let input = [0u8, 0, 0, 0, 0, 0, 0, 0x2A];
    let r = d.decode(&input, 0);
    assert_eq!(r, Ok((8usize, 42u128)));
}

#[test]
fn be_u64_with_seven_bytes_is_insufficient() {
    let d = uint_parser(8, Some(Endianness::Big), u64::MAX as u128).unwrap();
    let input = [0u8, 0, 0, 0, 0, 0, 0x2A];
    let r = d.decode(&input, 0);
    assert_eq!(
        r,
        Err(ParseError { kind: ErrorKind::InsufficientInput, pos: 0 })
    );
}

#[test]
fn be_u32_max_into_narrow_destination_is_out_of_range() {
    let d = uint_parser(4, Some(Endianness::Big), u16::MAX as u128).unwrap();
    let input = [0xFFu8, 0xFF, 0xFF, 0xFF];
    let r = d.decode(&input, 0);
    assert_eq!(
        r,
        Err(ParseError {
            kind: ErrorKind::ValueOutOfRange(ValueType::UnsignedInt),
            pos: 0,
        })
    );
}

#[test]
fn uint_oversized_values_all_encodings() {
    // A value too large for the narrow destination, and one that just fits.
    let big: u64 = 2 * (u32::MAX as u64);
    let small: u64 = u32::MAX as u64;

    let big_str = big.to_string();
    let small_str = small.to_string();
    let cases: [(Option<Endianness>, Vec<u8>, Vec<u8>); 3] = [
        (None, big_str.into_bytes(), small_str.into_bytes()),
        (Some(Endianness::Big), big.to_be_bytes().to_vec(), small.to_be_bytes().to_vec()),
        (
            Some(Endianness::Little),
            big.to_le_bytes().to_vec(),
            small.to_le_bytes().to_vec(),
        ),
    ];
    for (order, big_input, small_input) in cases {
        // Wide destination: the large value decodes.
        let wide = uint_parser(8, order, u64::MAX as u128).unwrap();
        let r = wide.decode(&big_input, 0);
        assert_eq!(r, Ok((big_input.len(), big as u128)));

        // Narrow destination: the large value is refused.
        let narrow = uint_parser(8, order, u32::MAX as u128).unwrap();
        assert!(narrow.decode(&big_input, 0).is_err());

        // Narrow destination: the fitting value decodes unchanged.
        let r = narrow.decode(&small_input, 0);
        assert_eq!(r, Ok((small_input.len(), small as u128)));
    }
}

#[test]
fn int_oversized_values_all_encodings() {
    let big: i64 = 2 * (i32::MAX as i64);
    let small: i64 = i32::MAX as i64;

    let big_str = big.to_string();
    let small_str = small.to_string();
    let cases: [(Option<Endianness>, Vec<u8>, Vec<u8>); 3] = [
        (None, big_str.into_bytes(), small_str.into_bytes()),
        (Some(Endianness::Big), big.to_be_bytes().to_vec(), small.to_be_bytes().to_vec()),
        (
            Some(Endianness::Little),
            big.to_le_bytes().to_vec(),
            small.to_le_bytes().to_vec(),
        ),
    ];
    for (order, big_input, small_input) in cases {
        let wide = int_parser(8, order, i64::MIN as i128, i64::MAX as i128).unwrap();
        let r = wide.decode(&big_input, 0);
        assert_eq!(r, Ok((big_input.len(), big as i128)));

        let narrow = int_parser(8, order, i32::MIN as i128, i32::MAX as i128).unwrap();
        assert!(narrow.decode(&big_input, 0).is_err());

        let r = narrow.decode(&small_input, 0);
        assert_eq!(r, Ok((small_input.len(), small as i128)));
    }
}

#[test]
fn textual_leading_whitespace_is_skipped() {
    let d = uint_parser(0, None, u64::MAX as u128).unwrap();
    let input = b" \t\r\n 123,";
    let r = d.decode(input, 0);
    assert_eq!(r, Ok((8usize, 123u128)));
}

#[test]
fn textual_whitespace_only_is_malformed() {
    let d = uint_parser(0, None, u64::MAX as u128).unwrap();
    let input = b"   \t\n";
    let r = d.decode(input, 0);
    assert_eq!(
        r,
        Err(ParseError { kind: ErrorKind::MalformedLiteral, pos: input.len() })
    );
}

#[test]
fn textual_whitespace_only_is_malformed_for_every_kind() {
    let input = b" \t ";
    let i = int_parser(0, None, i64::MIN as i128, i64::MAX as i128).unwrap();
    assert_eq!(
        i.decode(input, 0),
        Err(ParseError { kind: ErrorKind::MalformedLiteral, pos: input.len() })
    );
    let f = float_parser(0, None).unwrap();
    assert_eq!(
        f.decode(input, 0),
        Err(ParseError { kind: ErrorKind::MalformedLiteral, pos: input.len() })
    );
}

#[test]
fn textual_out_of_range_reports_token_start() {
    let d = uint_parser(0, None, u8::MAX as u128).unwrap();
    let input = b"  300";
    let r = d.decode(input, 0);
    assert_eq!(
        r,
        Err(ParseError {
            kind: ErrorKind::ValueOutOfRange(ValueType::UnsignedInt),
            pos: 2,
        })
    );
}

#[test]
fn textual_huge_literal_is_out_of_range_not_a_panic() {
    // A digit run denoting far more than any unsigned destination holds.
    let d = uint_parser(0, None, u128::MAX).unwrap();
    let input = "9".repeat(60).into_bytes();
    let r = d.decode(&input, 0);
    assert_eq!(
        r,
        Err(ParseError {
            kind: ErrorKind::ValueOutOfRange(ValueType::UnsignedInt),
            pos: 0,
        })
    );
}

#[test]
fn signed_textual_signs() {
    let d = int_parser(0, None, i64::MIN as i128, i64::MAX as i128).unwrap();
    assert_eq!(d.decode(b"-42", 0), Ok((3usize, -42i128)));
    assert_eq!(d.decode(b"+42", 0), Ok((3usize, 42i128)));
    assert_eq!(d.decode(b" -7 ", 0), Ok((3usize, -7i128)));
    assert_eq!(
        d.decode(b"-", 0),
        Err(ParseError { kind: ErrorKind::MalformedLiteral, pos: 0 })
    );
    assert_eq!(
        d.decode(b"+x", 0),
        Err(ParseError { kind: ErrorKind::MalformedLiteral, pos: 0 })
    );
}

#[test]
fn signed_textual_range_edges() {
    let d = int_parser(0, None, i8::MIN as i128, i8::MAX as i128).unwrap();
    assert_eq!(d.decode(b"-128", 0), Ok((4usize, -128i128)));
    assert_eq!(d.decode(b"127", 0), Ok((3usize, 127i128)));
    assert_eq!(
        d.decode(b"128", 0),
        Err(ParseError { kind: ErrorKind::ValueOutOfRange(ValueType::Int), pos: 0 })
    );
    assert_eq!(
        d.decode(b"-129", 0),
        Err(ParseError { kind: ErrorKind::ValueOutOfRange(ValueType::Int), pos: 0 })
    );
}

#[test]
fn signed_binary_twos_complement() {
    let d = int_parser(1, Some(Endianness::Little), i8::MIN as i128, i8::MAX as i128).unwrap();
    assert_eq!(d.decode(&[0x80], 0), Ok((1usize, -128i128)));
    assert_eq!(d.decode(&[0x7F], 0), Ok((1usize, 127i128)));
    assert_eq!(d.decode(&[0xFF], 0), Ok((1usize, -1i128)));

    let d = int_parser(4, Some(Endianness::Big), i32::MIN as i128, i32::MAX as i128).unwrap();
    let v: i32 = -123_456;
    assert_eq!(d.decode(&v.to_be_bytes(), 0), Ok((4usize, v as i128)));
}

#[test]
fn sixteen_byte_widths() {
    let d = uint_parser(16, Some(Endianness::Little), u128::MAX).unwrap();
    let v: u128 = 0x0123_4567_89AB_CDEF_0011_2233_4455_6677;
    assert_eq!(d.decode(&v.to_le_bytes(), 0), Ok((16usize, v)));

    let d = int_parser(16, Some(Endianness::Big), i128::MIN, i128::MAX).unwrap();
    assert_eq!(d.decode(&i128::MIN.to_be_bytes(), 0), Ok((16usize, i128::MIN)));
    assert_eq!(d.decode(&(-1i128).to_be_bytes(), 0), Ok((16usize, -1i128)));
}

#[test]
fn exact_fit_is_accepted() {
    // The narrow destination's maximum, encoded at the wide width.
    let narrow = uint_parser(8, Some(Endianness::Big), u32::MAX as u128).unwrap();
    let input = (u32::MAX as u64).to_be_bytes();
    assert_eq!(narrow.decode(&input, 0), Ok((8usize, u32::MAX as u128)));
}

#[test]
fn unsupported_widths_fail_at_construction() {
    assert_eq!(
        uint_parser(3, Some(Endianness::Little), u64::MAX as u128).unwrap_err(),
        ConfigError::UnsupportedWidth { width: 3 }
    );
    assert_eq!(
        int_parser(0, Some(Endianness::Big), i64::MIN as i128, i64::MAX as i128).unwrap_err(),
        ConfigError::UnsupportedWidth { width: 0 }
    );
    assert_eq!(
        float_parser(2, Some(Endianness::Little)).unwrap_err(),
        ConfigError::UnsupportedWidth { width: 2 }
    );
    // Textual mode has no physical width to validate.
    assert!(uint_parser(3, None, u64::MAX as u128).is_ok());
    assert!(float_parser(16, None).is_ok());
}

#[test]
fn size_adapter_passes_fitting_counts() {
    let inner = uint_parser(8, Some(Endianness::Big), u64::MAX as u128).unwrap();
    let d = construct_usize_parser(inner);
    let input = 42u64.to_be_bytes();
    assert_eq!(d.decode(&input, 0), Ok((8usize, 42usize)));
}

#[test]
fn size_adapter_rejects_unaddressable_counts() {
    // A 16-byte count larger than any platform usize.
    let inner = uint_parser(16, Some(Endianness::Big), u128::MAX).unwrap();
    let d = construct_usize_parser(inner);
    let input = u128::MAX.to_be_bytes();
    let r = d.decode(&input, 0);
    assert_eq!(
        r,
        Err(ParseError { kind: ErrorKind::TooManyEntities, pos: 0 })
    );
}

#[test]
fn size_adapter_propagates_inner_errors() {
    let inner = uint_parser(8, Some(Endianness::Big), u64::MAX as u128).unwrap();
    let d = construct_usize_parser(inner);
    assert_eq!(
        d.decode(&[0u8; 3], 0),
        Err(ParseError { kind: ErrorKind::InsufficientInput, pos: 0 })
    );
}

#[test]
fn float_binary_bit_patterns_round_trip() {
    let d = float_parser(8, Some(Endianness::Little)).unwrap();
    let input = 1.5f64.to_bits().to_le_bytes();
    let r = d.decode(&input, 0).unwrap();
    assert_eq!(r.0, 8);
    match r.1 {
        FloatRaw::Bits64(b) => assert_eq!(f64::from_bits(b), 1.5),
        _ => panic!("expected a 64-bit pattern"),
    }

    let d = float_parser(4, Some(Endianness::Big)).unwrap();
    let input = (-2.25f32).to_bits().to_be_bytes();
    let r = d.decode(&input, 0).unwrap();
    assert_eq!(r.0, 4);
    match r.1 {
        FloatRaw::Bits32(b) => assert_eq!(f32::from_bits(b), -2.25),
        _ => panic!("expected a 32-bit pattern"),
    }
}

#[test]
fn float_binary_insufficient_input() {
    let d = float_parser(8, Some(Endianness::Little)).unwrap();
    assert_eq!(
        d.decode(&[0u8; 7], 0),
        Err(ParseError { kind: ErrorKind::InsufficientInput, pos: 0 })
    );
}

#[test]
fn float_textual_tokens() {
    let d = float_parser(0, None).unwrap();

    // A full literal with fraction and exponent, then trailing bytes.
    let input = b" 3.14e2xyz";
    let r = d.decode(input, 0);
    assert_eq!(r, Ok((7usize, FloatRaw::Text { start: 1, end: 7 })));
    assert_eq!(&input[1..7], b"3.14e2");
    assert_eq!(std::str::from_utf8(&input[1..7]).unwrap().parse::<f64>().unwrap(), 314.0);

    // An incomplete exponent is not consumed.
    assert_eq!(d.decode(b"12e", 0), Ok((2usize, FloatRaw::Text { start: 0, end: 2 })));
    assert_eq!(d.decode(b"12e+", 0), Ok((2usize, FloatRaw::Text { start: 0, end: 2 })));

    // Mantissa shapes.
    assert_eq!(d.decode(b"1.", 0), Ok((2usize, FloatRaw::Text { start: 0, end: 2 })));
    assert_eq!(d.decode(b".5", 0), Ok((2usize, FloatRaw::Text { start: 0, end: 2 })));
    assert_eq!(d.decode(b"-0.5E-3", 0), Ok((7usize, FloatRaw::Text { start: 0, end: 7 })));

    // No literal at all.
    assert_eq!(
        d.decode(b"abc", 0),
        Err(ParseError { kind: ErrorKind::MalformedLiteral, pos: 0 })
    );
    assert_eq!(
        d.decode(b".", 0),
        Err(ParseError { kind: ErrorKind::MalformedLiteral, pos: 0 })
    );
    assert_eq!(
        d.decode(b"-", 0),
        Err(ParseError { kind: ErrorKind::MalformedLiteral, pos: 0 })
    );
}

#[test]
fn decoding_consumes_bytes_strictly_in_order() {
    // Two packed binary scalars, then a textual pair on a second cursor.
    let d = uint_parser(2, Some(Endianness::Big), u16::MAX as u128).unwrap();
    let input = [0x01u8, 0x02, 0x03, 0x04];
    let (p1, v1) = d.decode(&input, 0).unwrap();
    assert_eq!((p1, v1), (2, 0x0102));
    let (p2, v2) = d.decode(&input, p1).unwrap();
    assert_eq!((p2, v2), (4, 0x0304));

    let t = uint_parser(0, None, u64::MAX as u128).unwrap();
    let input = b"10 20";
    let (p1, v1) = t.decode(input, 0).unwrap();
    assert_eq!((p1, v1), (2, 10));
    let (p2, v2) = t.decode(input, p1).unwrap();
    assert_eq!((p2, v2), (5, 20));
}

#[test]
fn errors_leave_the_cursor_position_to_the_caller() {
    // A failing decode returns no new position; the caller's cursor stands.
    let d = uint_parser(4, Some(Endianness::Big), u8::MAX as u128).unwrap();
    let input = [0x00u8, 0x01, 0x00, 0x00];
    let r = d.decode(&input, 0);
    assert_eq!(
        r,
        Err(ParseError {
            kind: ErrorKind::ValueOutOfRange(ValueType::UnsignedInt),
            pos: 0,
        })
    );
    // The same bytes decode fine with a wide destination: nothing was consumed.
    let wide = uint_parser(4, Some(Endianness::Big), u32::MAX as u128).unwrap();
    assert_eq!(wide.decode(&input, 0), Ok((4usize, 0x10000u128)));
}
