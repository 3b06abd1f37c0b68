use vhx::cli::legal_chunk_size;
use vhx::cli::legal_file_type;
use vhx::cli::legal_hex_or_decimal;
use vhx::cli::legal_u32;
use vhx::cli::legal_u8;
use vhx::cli::CliError;
use vhx::cli::FileKind;

#[test]
fn decimal_numbers_parse() {
    assert_eq!(legal_hex_or_decimal(b"123"), Ok(123));
    assert_eq!(legal_hex_or_decimal(b"0"), Ok(0));
}

#[test]
fn hex_numbers_parse() {
    assert_eq!(legal_hex_or_decimal(b"0x2a"), Ok(0x2a));
    assert_eq!(legal_hex_or_decimal(b"0xDEAD"), Ok(0xDEAD));
}

#[test]
fn odd_hex_digit_count_is_rejected() {
    assert_eq!(legal_hex_or_decimal(b"0x1"), Err(CliError::NotHexNumber));
}

#[test]
fn non_numbers_are_rejected() {
    assert_eq!(legal_hex_or_decimal(b"abc"), Err(CliError::NotNumber));
    assert_eq!(legal_hex_or_decimal(b""), Err(CliError::NotNumber));
    assert_eq!(legal_hex_or_decimal(b"12a"), Err(CliError::NotNumber));
}

#[test]
fn legal_u32_truncates() {
    assert_eq!(legal_u32(b"0x0102030405"), Ok(0x02030405));
    assert_eq!(legal_u32(b"7"), Ok(7));
}

#[test]
fn legal_u8_truncates() {
    assert_eq!(legal_u8(b"300"), Ok(44));
    assert_eq!(legal_u8(b"0xff"), Ok(0xFF));
}

#[test]
fn chunk_sizes_64_and_128_are_accepted() {
    assert_eq!(legal_chunk_size(b"64"), Ok(64));
    assert_eq!(legal_chunk_size(b"128"), Ok(128));
}

#[test]
fn unsupported_chunk_sizes_are_rejected() {
    assert_eq!(legal_chunk_size(b"32"), Err(CliError::BadChunkSize));
    assert_eq!(legal_chunk_size(b"256"), Err(CliError::BadChunkSize));
    assert_eq!(legal_chunk_size(b"sixty"), Err(CliError::NotChunkSize));
}

#[test]
fn file_types_by_extension() {
    assert_eq!(legal_file_type(b"image.hex"), Ok(FileKind::Hex));
    assert_eq!(legal_file_type(b"out/image.vhx"), Ok(FileKind::Vhx));
    assert_eq!(legal_file_type(b"image.vhx128"), Ok(FileKind::Vhx));
}

#[test]
fn missing_extension_is_rejected() {
    assert_eq!(legal_file_type(b"image"), Err(CliError::NoExtension));
    assert_eq!(legal_file_type(b".hidden"), Err(CliError::NoExtension));
    assert_eq!(legal_file_type(b"dir.d/image"), Err(CliError::NoExtension));
}

#[test]
fn unsupported_extension_is_rejected() {
    assert_eq!(legal_file_type(b"image.txt"), Err(CliError::UnsupportedType));
    assert_eq!(legal_file_type(b"image.vhx64"), Err(CliError::UnsupportedType));
    assert_eq!(legal_file_type(b"image.HEX"), Err(CliError::UnsupportedType));
}
