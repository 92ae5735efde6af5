use mqtt_client::error::{DecodeError, EncodeError};
use mqtt_client::varint::{decode_variable_int, encode_variable_int, MAX_VARIABLE_INT};

#[test]
fn encode_zero_is_one_zero_byte() {
    assert_eq!(encode_variable_int(0), Ok(vec![0x00]));
}

#[test]
fn encode_values_at_the_byte_boundaries() {
    assert_eq!(encode_variable_int(1), Ok(vec![0x01]));
    assert_eq!(encode_variable_int(127), Ok(vec![0x7F]));
    assert_eq!(encode_variable_int(128), Ok(vec![0x80, 0x01]));
    assert_eq!(encode_variable_int(16_383), Ok(vec![0xFF, 0x7F]));
    assert_eq!(encode_variable_int(16_384), Ok(vec![0x80, 0x80, 0x01]));
    assert_eq!(encode_variable_int(2_097_151), Ok(vec![0xFF, 0xFF, 0x7F]));
    assert_eq!(encode_variable_int(2_097_152), Ok(vec![0x80, 0x80, 0x80, 0x01]));
    assert_eq!(encode_variable_int(268_435_455), Ok(vec![0xFF, 0xFF, 0xFF, 0x7F]));
}

#[test]
fn encode_takes_the_low_seven_bits_first() {
    // 321 = 2 * 128 + 65
    assert_eq!(encode_variable_int(321), Ok(vec![0xC1, 0x02]));
}

#[test]
fn encode_rejects_values_above_the_maximum() {
    assert_eq!(MAX_VARIABLE_INT, (1usize << 28) - 1);
    assert_eq!(encode_variable_int(MAX_VARIABLE_INT + 1), Err(EncodeError::ValueTooLarge));
    assert_eq!(encode_variable_int(usize::MAX), Err(EncodeError::ValueTooLarge));
}

#[test]
fn decode_reads_value_and_length() {
    assert_eq!(decode_variable_int(&[0x00]), Ok((0, 1)));
    assert_eq!(decode_variable_int(&[0x7F]), Ok((127, 1)));
    assert_eq!(decode_variable_int(&[0x80, 0x01]), Ok((128, 2)));
    assert_eq!(decode_variable_int(&[0xC1, 0x02]), Ok((321, 2)));
    assert_eq!(decode_variable_int(&[0xFF, 0xFF, 0xFF, 0x7F]), Ok((268_435_455, 4)));
}

#[test]
fn decode_does_not_look_past_the_last_byte() {
    assert_eq!(decode_variable_int(&[0x0C, 0xFF, 0xFF]), Ok((12, 1)));
    assert_eq!(decode_variable_int(&[0x80, 0x01, 0x80, 0x80, 0x80, 0x80]), Ok((128, 2)));
}

#[test]
fn decode_accepts_a_padded_value() {
    assert_eq!(decode_variable_int(&[0x80, 0x00]), Ok((0, 2)));
}

#[test]
fn decode_reports_the_end_of_the_bytes() {
    assert_eq!(decode_variable_int(&[]), Err(DecodeError::Truncated));
    assert_eq!(decode_variable_int(&[0x80]), Err(DecodeError::Truncated));
    assert_eq!(decode_variable_int(&[0xFF, 0xFF, 0xFF]), Err(DecodeError::Truncated));
}

#[test]
fn decode_rejects_a_fifth_byte() {
    assert_eq!(decode_variable_int(&[0x80, 0x80, 0x80, 0x80]), Err(DecodeError::MalformedLength));
    assert_eq!(
        decode_variable_int(&[0xFF, 0xFF, 0xFF, 0xFF, 0x01]),
        Err(DecodeError::MalformedLength)
    );
}

#[test]
fn decode_gives_back_what_encode_wrote() {
    let mut value: usize = 0;
    while value <= MAX_VARIABLE_INT {
        let bytes: Vec<u8> = encode_variable_int(value).unwrap();
        assert!(1 <= bytes.len() && bytes.len() <= 4);
        assert_eq!(decode_variable_int(&bytes), Ok((value, bytes.len())));
        let mut followed: Vec<u8> = bytes.clone();
        followed.push(0xFF);
        assert_eq!(decode_variable_int(&followed), Ok((value, bytes.len())));
        value = value * 3 + 1;
    }
    for value in [127usize, 128, 16_383, 16_384, 2_097_151, 2_097_152, MAX_VARIABLE_INT] {
        let bytes: Vec<u8> = encode_variable_int(value).unwrap();
        assert_eq!(decode_variable_int(&bytes), Ok((value, bytes.len())));
    }
}
