use vhx::checksum::hex_checksum;
use vhx::payload::DecodeError;
use vhx::payload::Payload;

#[test]
fn checksum_of_empty_is_zero() {
    assert_eq!(hex_checksum(&[]), 0x00);
}

#[test]
fn checksum_of_eof_record_is_ff() {
    assert_eq!(hex_checksum(&[0x00, 0x00, 0x00, 0x01]), 0xFF);
}

#[test]
fn checksum_matches_known_records() {
    assert_eq!(hex_checksum(&[0x01, 0x00, 0x00, 0x00, 0xAA]), 0x55);
    assert_eq!(hex_checksum(&[0x04, 0x00, 0x00, 0x00, 0x01, 0x02, 0x03, 0x04]), 0xF2);
    assert_eq!(hex_checksum(&[0x02, 0x00, 0x00, 0x04, 0x00, 0x01]), 0xF9);
}

#[test]
fn checksum_changes_when_a_byte_changes() {
    let a = hex_checksum(&[0x01, 0x00, 0x00, 0x00, 0xAA]);
    let b = hex_checksum(&[0x01, 0x00, 0x00, 0x00, 0xAB]);
    assert_ne!(a, b);
}

#[test]
fn gap_filling_fills_sparse_addresses() {
    let text = b":01000000AA55\n:01000300BB41\n:00000001FF\n";
    let p = Payload::from_hex(text, false, 0x00).unwrap();
    assert_eq!(p.start_address(), 0);
    assert_eq!(p.bytes().as_slice(), &[0xAA, 0x00, 0x00, 0xBB]);
}

#[test]
fn gap_filling_uses_fill_value() {
    let text = b":01000000AA55\n:01000300BB41\n:00000001FF\n";
    let p = Payload::from_hex(text, false, 0xFF).unwrap();
    assert_eq!(p.bytes().as_slice(), &[0xAA, 0xFF, 0xFF, 0xBB]);
}

#[test]
fn little_endian_reverses_each_word() {
    let text = b":0400000001020304F2\n:00000001FF\n";
    let p = Payload::from_hex(text, true, 0x00).unwrap();
    assert_eq!(p.bytes().as_slice(), &[0x04, 0x03, 0x02, 0x01]);
}

#[test]
fn big_endian_leaves_words_unchanged() {
    let text = b":0400000001020304F2\n:00000001FF\n";
    let p = Payload::from_hex(text, false, 0x00).unwrap();
    assert_eq!(p.bytes().as_slice(), &[0x01, 0x02, 0x03, 0x04]);
}

#[test]
fn eof_record_truncates_processing() {
    let text = b":0400000001020304F2\n:00000001FF\nthis line is not a record at all\n";
    let p = Payload::from_hex(text, false, 0x00).unwrap();
    assert_eq!(p.bytes().as_slice(), &[0x01, 0x02, 0x03, 0x04]);
}

#[test]
fn flipped_bit_fails_with_checksum_mismatch_at_right_line() {
    // The second record's first data byte 0x01 became 0x03.
    let text = b":0400000001020304F2\n:0400000003020304F2\n:00000001FF\n";
    let e = Payload::from_hex(text, false, 0x00).unwrap_err();
    match e {
        DecodeError::ChecksumMismatch { line, computed, included } => {
            assert_eq!(line, 1);
            assert_eq!(included, 0xF2);
            assert_eq!(computed, 0xF0);
        }
        other => panic!("expected a checksum mismatch, got {:?}", other),
    }
}

#[test]
fn invalid_hex_is_rejected() {
    let e = Payload::from_hex(b":zz\n", false, 0x00).unwrap_err();
    assert_eq!(e, DecodeError::InvalidHex { line: 0 });
}

#[test]
fn short_record_is_malformed() {
    let e = Payload::from_hex(b":0102\n", false, 0x00).unwrap_err();
    assert_eq!(e, DecodeError::MalformedRecord { line: 0 });
}

#[test]
fn extended_linear_address_shifts_the_start() {
    let text = b":020000040001F9\n:0400000001020304F2\n:00000001FF\n";
    let p = Payload::from_hex(text, false, 0x00).unwrap();
    assert_eq!(p.start_address(), 0x10000);
    assert_eq!(p.bytes().as_slice(), &[0x01, 0x02, 0x03, 0x04]);
}

#[test]
fn extended_segment_address_record_needs_two_bytes() {
    let e = Payload::from_hex(b":01000002AA53\n", false, 0x00).unwrap_err();
    assert_eq!(e, DecodeError::SegmentAddressLength { line: 0 });
}

#[test]
fn unaligned_little_endian_image_is_refused() {
    let e = Payload::from_hex(b":01000000AA55\n", true, 0x00).unwrap_err();
    assert_eq!(e, DecodeError::NotWordAligned);
}

#[test]
fn unaligned_big_endian_image_is_fine() {
    let p = Payload::from_hex(b":01000000AA55\n", false, 0x00).unwrap();
    assert_eq!(p.bytes().as_slice(), &[0xAA]);
}

#[test]
fn empty_input_gives_empty_image() {
    let p = Payload::from_hex(b"", false, 0x00).unwrap();
    assert_eq!(p.start_address(), 0);
    assert!(p.bytes().is_empty());
}

#[test]
fn unknown_record_types_are_ignored() {
    let text = b":01000003AA52\n:0400000001020304F2\n:00000001FF\n";
    let p = Payload::from_hex(text, false, 0x00).unwrap();
    assert_eq!(p.bytes().as_slice(), &[0x01, 0x02, 0x03, 0x04]);
}

#[test]
fn records_out_of_order_are_sorted_by_address() {
    let text = b":01000300BB41\n:01000000AA55\n:00000001FF\n";
    let p = Payload::from_hex(text, false, 0x00).unwrap();
    assert_eq!(p.start_address(), 0);
    assert_eq!(p.bytes().as_slice(), &[0xAA, 0x00, 0x00, 0xBB]);
}

#[test]
fn vhx_decodes_chunks_word_reversed() {
    let p = Payload::from_vhx(b"0011223344556677", 0x40, 64).unwrap();
    assert_eq!(p.start_address(), 0x40);
    assert_eq!(
        p.bytes().as_slice(),
        &[0x44, 0x55, 0x66, 0x77, 0x00, 0x11, 0x22, 0x33]
    );
}

#[test]
fn vhx_ignores_whitespace() {
    let p = Payload::from_vhx(b"0011 2233\n4455 6677\n", 0, 64).unwrap();
    assert_eq!(
        p.bytes().as_slice(),
        &[0x44, 0x55, 0x66, 0x77, 0x00, 0x11, 0x22, 0x33]
    );
}

#[test]
fn vhx_odd_digit_count_is_rejected() {
    let e = Payload::from_vhx(b"011", 0, 64).unwrap_err();
    assert_eq!(e, DecodeError::OddDigitCount);
}

#[test]
fn vhx_incomplete_chunk_is_rejected() {
    let e = Payload::from_vhx(b"0011", 0, 64).unwrap_err();
    assert_eq!(e, DecodeError::IncompleteChunk);
    let e = Payload::from_vhx(b"0011223344556677", 0, 128).unwrap_err();
    assert_eq!(e, DecodeError::IncompleteChunk);
}

#[test]
fn vhx_accepts_uppercase_digits() {
    let p = Payload::from_vhx(b"AABBCCDD EEFF0011", 0, 64).unwrap();
    assert_eq!(
        p.bytes().as_slice(),
        &[0xEE, 0xFF, 0x00, 0x11, 0xAA, 0xBB, 0xCC, 0xDD]
    );
}

#[test]
fn render_drops_a_trailing_partial_word() {
    let p = Payload::new(0, vec![0x01, 0x02, 0x03, 0x04, 0x05]);
    let out = p.render();
    assert_eq!(out.as_slice(), b"00000000: 01020304\n");
}

#[test]
fn write_hex_emits_known_records_big_endian() {
    let p = Payload::new(0, vec![0x01, 0x02, 0x03, 0x04]);
    let out = p.write_hex(false);
    assert_eq!(
        out.as_slice(),
        b":020000040000FA\n:0400000001020304F2\n:00000001FF\n"
    );
}

#[test]
fn write_hex_swaps_words_little_endian() {
    let p = Payload::new(0, vec![0x01, 0x02, 0x03, 0x04]);
    let out = p.write_hex(true);
    assert_eq!(
        out.as_slice(),
        b":020000040000FA\n:0400000004030201F2\n:00000001FF\n"
    );
}

#[test]
fn write_hex_carries_high_address_bits() {
    let p = Payload::new(0x10000, vec![0x01, 0x02, 0x03, 0x04]);
    let out = p.write_hex(false);
    assert_eq!(
        out.as_slice(),
        b":020000040001F9\n:0400000001020304F2\n:00000001FF\n"
    );
}

#[test]
fn hex_round_trip_reproduces_payload() {
    let text = b":020000040000FA\n:0400000001020304F2\n:00000001FF\n";
    let p = Payload::from_hex(text, true, 0x00).unwrap();
    let out = p.write_hex(true);
    assert_eq!(out.as_slice(), text.as_slice());
}

#[test]
fn write_vhx_reverses_words_per_chunk() {
    let p = Payload::new(0, vec![0x44, 0x55, 0x66, 0x77, 0x00, 0x11, 0x22, 0x33]);
    let out = p.write_vhx(64);
    assert_eq!(out.as_slice(), b"0011223344556677\n");
}

#[test]
fn vhx_round_trip_reproduces_digit_stream() {
    let text = b"0011223344556677";
    let p = Payload::from_vhx(text, 0, 64).unwrap();
    let out = p.write_vhx(64);
    assert_eq!(out.as_slice(), b"0011223344556677\n");
}

#[test]
fn vhx_round_trip_with_128_bit_chunks() {
    let text = b"00112233445566778899aabbccddeeff";
    let p = Payload::from_vhx(text, 0, 128).unwrap();
    let out = p.write_vhx(128);
    assert_eq!(out.as_slice(), b"00112233445566778899aabbccddeeff\n");
}

#[test]
fn write_vhx_drops_a_trailing_partial_chunk() {
    let p = Payload::new(0, vec![0x44, 0x55, 0x66, 0x77, 0x00, 0x11, 0x22, 0x33, 0x99]);
    let out = p.write_vhx(64);
    assert_eq!(out.as_slice(), b"0011223344556677\n");
}

#[test]
fn render_shows_address_and_words() {
    let p = Payload::new(0, vec![0x01, 0x02, 0x03, 0x04]);
    let out = p.render();
    assert_eq!(out.as_slice(), b"00000000: 01020304\n");
}

#[test]
fn render_advances_the_address_by_sixteen() {
    let mut bytes = Vec::new();
    for i in 0..20u8 {
        bytes.push(i);
    }
    let p = Payload::new(0x100, bytes);
    let out = p.render();
    assert_eq!(
        out.as_slice(),
        b"00000100: 00010203 04050607 08090a0b 0c0d0e0f\n00000110: 10111213\n"
    );
}
