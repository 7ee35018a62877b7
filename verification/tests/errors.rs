use c32::decode;
use c32::decode_check;
use c32::decode_check_into;
use c32::decode_check_prefixed;
use c32::decode_into;
use c32::decode_prefixed;
use c32::encode_check;
use c32::encode_check_into;
use c32::encode_check_prefixed;
use c32::encode_into;
use c32::Error;

#[test]
fn test_error_encode_into_buffer_too_small() {
    let mut output = [0u8; 2];
    let result = encode_into(&[1, 2, 3, 4, 5], &mut output);
    assert!(matches!(
        result,
        Err(Error::BufferTooSmall { min, len }) if min == 8 && len == 2
    ));
}

#[test]
fn test_error_decode_into_buffer_too_small() {
    let mut output = [0u8; 2];
    let result = decode_into(b"4106105", &mut output);
    assert!(matches!(
        result,
        Err(Error::BufferTooSmall { min, len }) if min == 7 && len == 2
    ));
}

#[test]
fn test_error_encode_check_into_buffer_too_small() {
    let mut output = [0u8; 5];
    let result = encode_check_into(&[1, 2, 3], &mut output, 0);
    assert!(matches!(
        result,
        Err(Error::BufferTooSmall { min, len }) if min == 13 && len == 5
    ));
}

#[test]
fn test_error_decode_check_into_buffer_too_small() {
    let mut output = [0u8; 2];
    let result = decode_check_into(b"0G40R40QP9HXK8", &mut output);
    assert!(matches!(
        result,
        Err(Error::BufferTooSmall { min, len }) if min == 14 && len == 2
    ));
}

#[test]
fn test_error_decode_into_invalid_character() {
    let mut output = [0u8; 10];
    let result = decode_into(b"!MAHA", &mut output);
    assert!(matches!(
        result,
        Err(Error::InvalidCharacter { char, index }) if char == '!' && index == 0
    ));
}

#[test]
fn test_error_decode_invalid_character() {
    let result = decode("!MAHA");
    assert!(matches!(
        result,
        Err(Error::InvalidCharacter { char, index }) if char == '!' && index == 0
    ));
}

#[test]
fn test_error_decode_prefixed_invalid_character() {
    let result = decode_prefixed("S!MAHA", 'S');
    assert!(matches!(
        result,
        Err(Error::InvalidCharacter { char, index }) if char == '!' && index == 1
    ));
}

#[test]
fn test_error_decode_check_into_invalid_character() {
    let mut output = [0u8; 32];
    let result = decode_check_into(b"0%AHA59B9201Z", &mut output);
    assert!(matches!(
        result,
        Err(Error::InvalidCharacter { char, index }) if char == '%' && index == 1
    ));
}

#[test]
fn test_error_decode_check_invalid_character() {
    let result = decode_check("0!AHA59B9201Z");
    assert!(matches!(
        result,
        Err(Error::InvalidCharacter { char, index }) if char == '!' && index == 1
    ));
}

#[test]
fn test_error_decode_check_prefixed_invalid_character() {
    let result = decode_check_prefixed("S0!AHA59B9201Z", 'S');
    assert!(matches!(
        result,
        Err(Error::InvalidCharacter { char, index }) if char == '!' && index == 2
    ));
}

#[test]
fn test_error_decode_prefixed_missing_prefix() {
    let result = decode_prefixed("2MAHA", 'S');
    assert!(matches!(
        result,
        Err(Error::MissingPrefix { char, got }) if char == 'S' && got == Some('2')
    ));
}

#[test]
fn test_error_decode_prefixed_empty_string() {
    let result = decode_prefixed("", 'S');
    assert!(matches!(
        result,
        Err(Error::MissingPrefix { char, got }) if char == 'S' && got == None
    ));
}

#[test]
fn test_error_decode_check_prefixed_missing_prefix() {
    let result = decode_check_prefixed("0AHA59B9201Z", 'S');
    assert!(matches!(
        result,
        Err(Error::MissingPrefix { char, got }) if char == 'S' && got == Some('0')
    ));
}

#[test]
fn test_error_decode_check_prefixed_empty_string() {
    let result = decode_check_prefixed("", 'S');
    assert!(matches!(
        result,
        Err(Error::MissingPrefix { char, got }) if char == 'S' && got == None
    ));
}

#[test]
fn test_error_encode_check_into_invalid_version() {
    let mut output = [0u8; 32];
    let result = encode_check_into(&[1, 2, 3], &mut output, 32);
    assert!(matches!(
        result,
        Err(Error::InvalidVersion { version }) if version == 32
    ));
}

#[test]
fn test_error_encode_check_invalid_version() {
    let result = encode_check(&[1, 2, 3], 32);
    assert!(matches!(
        result,
        Err(Error::InvalidVersion { version }) if version == 32
    ));
}

#[test]
fn test_error_encode_check_prefixed_invalid_version() {
    let result = encode_check_prefixed(&[1, 2, 3], 'S', 32);
    assert!(matches!(
        result,
        Err(Error::InvalidVersion { version }) if version == 32
    ));
}

#[test]
fn test_error_decode_check_into_insufficient_data() {
    let mut output = [0u8; 10];
    let result = decode_check_into(b"0", &mut output);
    assert!(matches!(
        result,
        Err(Error::InsufficientData { min, len }) if min == 2 && len == 1
    ));
}

#[test]
fn test_error_decode_check_insufficient_data() {
    let result = decode_check("0");
    assert!(matches!(
        result,
        Err(Error::InsufficientData { min, len }) if min == 2 && len == 1
    ));
}

#[test]
fn test_error_decode_check_prefixed_insufficient_data() {
    let result = decode_check_prefixed("S0", 'S');
    assert!(matches!(
        result,
        Err(Error::InsufficientData { min, len }) if min == 2 && len == 1
    ));
}

#[test]
fn test_error_decode_check_into_checksum_mismatch() {
    let mut output = [0u8; 10];
    let result = decode_check_into(b"04C407K7", &mut output);
    assert!(matches!(
        result,
        Err(Error::ChecksumMismatch { expected: _, got: _ })
    ));
}

#[test]
fn test_error_decode_check_checksum_mismatch() {
    let result = decode_check("0820FVT6NE1");
    assert!(matches!(
        result,
        Err(Error::ChecksumMismatch { expected: _, got: _ })
    ));
}

#[test]
fn test_error_decode_check_prefixed_checksum_mismatch() {
    let result = decode_check_prefixed("S0820FVT6NE1", 'S');
    assert!(matches!(
        result,
        Err(Error::ChecksumMismatch { expected: _, got: _ })
    ));
}
