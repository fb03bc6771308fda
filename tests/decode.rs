use qr_payload::bits::BitCursor;
use qr_payload::segments::{alphanumeric, eight_bit, length_bits, numeric, Mode};
use qr_payload::{data, DecodeError};

/// Packs a string of '0' and '1' into bytes, most significant bit first,
/// filling the last byte with zeros.
fn pack(bits: &str) -> Vec<u8> {
    let bits: Vec<u8> = bits.bytes().filter(|b| *b != b' ').collect();
    let mut out = vec![0u8; (bits.len() + 7) / 8];
    for (i, b) in bits.iter().enumerate() {
        if *b == b'1' {
            out[i / 8] |= 0x80 >> (i % 8);
        }
    }
    out
}

/// `value` written in `width` bits, most significant first.
fn field(value: u32, width: usize) -> String {
    (0..width)
        .rev()
        .map(|i| if (value >> i) & 1 == 1 { '1' } else { '0' })
        .collect()
}

#[test]
fn scenario_numeric_version_1() {
    let input = pack("0001 0000000011 0001111011 0000");
    assert_eq!(data(input, 1), Ok(b"123".to_vec()));
}

#[test]
fn scenario_alphanumeric_version_1() {
    let stream = format!("0010{}{}0000", field(2, 9), field(10 * 45 + 11, 11));
    assert_eq!(data(pack(&stream), 1), Ok(b"AB".to_vec()));
}

#[test]
fn scenario_byte_version_1() {
    let stream = format!("0100{}{}{}", field(2, 8), field(0x41, 8), field(0x42, 8));
    assert_eq!(data(pack(&stream), 1), Ok(vec![0x41, 0x42]));
}

#[test]
fn truncated_numeric_length_field() {
    let input = pack("0001 0000");
    assert_eq!(data(input, 1), Err(DecodeError::InsufficientBits(10)));
}

#[test]
fn truncated_numeric_length_field_higher_band() {
    let input = pack("0001 0000");
    assert_eq!(data(input, 20), Err(DecodeError::InsufficientBits(12)));
}

#[test]
fn numeric_keeps_leading_zeros() {
    let stream = format!("0001{}{}0000", field(3, 10), field(7, 10));
    assert_eq!(data(pack(&stream), 1), Ok(b"007".to_vec()));
}

#[test]
fn numeric_groups_pair_and_single() {
    // 8 digits: two groups of three, then a pair.
    let stream = format!(
        "0001{}{}{}{}0000",
        field(8, 10),
        field(12, 10),
        field(345, 10),
        field(6, 7)
    );
    assert_eq!(data(pack(&stream), 1), Ok(b"01234506".to_vec()));
    // 4 digits: a group of three, then a single digit.
    let stream = format!("0001{}{}{}0000", field(4, 10), field(999, 10), field(0, 4));
    assert_eq!(data(pack(&stream), 1), Ok(b"9990".to_vec()));
}

#[test]
fn numeric_group_above_999_is_printed_in_full() {
    let stream = format!("0001{}{}0000", field(3, 10), field(1023, 10));
    assert_eq!(data(pack(&stream), 1), Ok(b"1023".to_vec()));
}

#[test]
fn numeric_empty_segment() {
    let stream = format!("0001{}0000", field(0, 10));
    assert_eq!(data(pack(&stream), 1), Ok(vec![]));
}

#[test]
fn numeric_truncated_digits() {
    let stream = format!("0001{}{}", field(6, 10), field(123, 10));
    assert_eq!(data(pack(&stream), 1), Err(DecodeError::InsufficientBits(10)));
}

#[test]
fn alphanumeric_pair_and_single() {
    let stream = format!(
        "0010{}{}{}0000",
        field(3, 9),
        field(36 * 45 + 37, 11),
        field(44, 6)
    );
    assert_eq!(data(pack(&stream), 1), Ok(b" $:".to_vec()));
}

#[test]
fn alphanumeric_first_index_too_large() {
    let stream = format!("0010{}{}0000", field(2, 9), field(45 * 45, 11));
    assert_eq!(
        data(pack(&stream), 1),
        Err(DecodeError::InvalidAlphanumericValue(45))
    );
}

#[test]
fn alphanumeric_largest_valid_pair() {
    let stream = format!("0010{}{}0000", field(2, 9), field(44 * 45 + 44, 11));
    assert_eq!(data(pack(&stream), 1), Ok(b"::".to_vec()));
}

#[test]
fn alphanumeric_single_index_too_large() {
    let stream = format!("0010{}{}0000", field(1, 9), field(45, 6));
    assert_eq!(
        data(pack(&stream), 1),
        Err(DecodeError::InvalidAlphanumericValue(45))
    );
}

#[test]
fn alphabet_order() {
    let alphabet = b"0123456789ABCDEFGHIJKLMNOPQRSTUVWXYZ $%*+-./:";
    for (i, c) in alphabet.iter().enumerate() {
        assert_eq!(qr_payload::segments::alphanumeric_symbol(i as u16), *c);
    }
}

#[test]
fn byte_mode_version_10_uses_16_bit_length() {
    let stream = format!("0100{}{}{}{}0000", field(3, 16), field(0, 8), field(0xff, 8), field(0x80, 8));
    assert_eq!(data(pack(&stream), 10), Ok(vec![0x00, 0xff, 0x80]));
}

#[test]
fn byte_mode_truncated() {
    let stream = format!("0100{}{}", field(3, 8), field(0x41, 8));
    assert_eq!(data(pack(&stream), 1), Err(DecodeError::InsufficientBits(8)));
}

#[test]
fn terminator_ignores_what_follows() {
    let input = pack("0000 1111 1111 0011 1111 1111");
    assert_eq!(data(input, 1), Ok(vec![]));
}

#[test]
fn empty_stream_is_empty_content() {
    assert_eq!(data(vec![], 1), Ok(vec![]));
}

#[test]
fn end_of_stream_acts_as_terminator() {
    // A numeric segment that ends exactly on the last bit, with no terminator.
    let stream = format!("0001{}{}00", field(2, 10), field(42, 7));
    assert_eq!(stream.len(), 23);
    let stream = format!("{}0", stream);
    // One bit is left after the segment: too few for a mode tag.
    assert_eq!(data(pack(&stream), 1), Ok(b"42".to_vec()));
}

#[test]
fn unsupported_mode() {
    let input = pack("0011 0000");
    assert_eq!(data(input, 1), Err(DecodeError::UnsupportedMode(0b0011)));
}

#[test]
fn failure_discards_earlier_segments() {
    let stream = format!("0001{}{}0111", field(3, 10), field(123, 10));
    assert_eq!(data(pack(&stream), 1), Err(DecodeError::UnsupportedMode(0b0111)));
}

#[test]
fn segments_concatenate() {
    let stream = format!(
        "0001{}{}0100{}{}0010{}{}0000",
        field(2, 10),
        field(12, 7),
        field(1, 8),
        field(b'x' as u32, 8),
        field(1, 9),
        field(10, 6)
    );
    assert_eq!(data(pack(&stream), 1), Ok(b"12xA".to_vec()));
}

#[test]
fn unsupported_versions() {
    for version in [0u32, 41, 100] {
        let stream = format!("0001{}{}0000", field(3, 10), field(123, 10));
        assert_eq!(
            data(pack(&stream), version),
            Err(DecodeError::UnsupportedVersion(version))
        );
        for mode in [Mode::Numeric, Mode::Alphanumeric, Mode::Byte] {
            assert_eq!(length_bits(mode, version), Err(DecodeError::UnsupportedVersion(version)));
        }
    }
}

#[test]
fn unsupported_version_unchecked_without_segments() {
    assert_eq!(data(pack("0000"), 0), Ok(vec![]));
}

#[test]
fn length_field_widths() {
    let table = [
        (1u32, 10u8, 9u8, 8u8),
        (9, 10, 9, 8),
        (10, 12, 11, 16),
        (26, 12, 11, 16),
        (27, 14, 13, 16),
        (40, 14, 13, 16),
    ];
    for (version, num, alnum, byte) in table {
        assert_eq!(length_bits(Mode::Numeric, version), Ok(num));
        assert_eq!(length_bits(Mode::Alphanumeric, version), Ok(alnum));
        assert_eq!(length_bits(Mode::Byte, version), Ok(byte));
    }
}

#[test]
fn numeric_version_40_uses_14_bit_length() {
    let stream = format!("0001{}{}0000", field(1, 14), field(5, 4));
    assert_eq!(data(pack(&stream), 40), Ok(b"5".to_vec()));
}

#[test]
fn alphanumeric_version_27_uses_13_bit_length() {
    let stream = format!("0010{}{}0000", field(1, 13), field(35, 6));
    assert_eq!(data(pack(&stream), 27), Ok(b"Z".to_vec()));
}

#[test]
fn segment_decoders_leave_cursor_after_segment() {
    let stream = format!("{}{}{}", field(2, 10), field(99, 7), "1010");
    let mut cursor = BitCursor::new(pack(&stream));
    assert_eq!(numeric(&mut cursor, 1), Ok(b"99".to_vec()));
    assert_eq!(cursor.position(), 17);
    assert_eq!(cursor.read(4), Some(0b1010));

    let stream = format!("{}{}", field(1, 9), field(12, 6));
    let mut cursor = BitCursor::new(pack(&stream));
    assert_eq!(alphanumeric(&mut cursor, 5), Ok(b"C".to_vec()));

    let stream = format!("{}{}", field(1, 8), field(7, 8));
    let mut cursor = BitCursor::new(pack(&stream));
    assert_eq!(eight_bit(&mut cursor, 9), Ok(vec![7]));
}

#[test]
fn bit_cursor_reads_most_significant_first() {
    let mut cursor = BitCursor::new(vec![0xA5, 0x3C]);
    assert_eq!(cursor.read(4), Some(0xA));
    assert_eq!(cursor.read(8), Some(0x53));
    assert_eq!(cursor.position(), 12);
    assert_eq!(cursor.read(5), None);
    assert_eq!(cursor.position(), 12);
    assert_eq!(cursor.read(4), Some(0xC));
    assert_eq!(cursor.read(1), None);
}

#[test]
fn bit_cursor_reads_sixteen_bits() {
    let mut cursor = BitCursor::new(vec![0xFF, 0xFE, 0x01]);
    assert_eq!(cursor.read(16), Some(0xFFFE));
    assert_eq!(cursor.read(8), Some(0x01));
}
