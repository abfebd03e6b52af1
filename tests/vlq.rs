use smfr::file::filerw::SmfError;
use smfr::types::message;

#[test]
fn from_vlq_1() {
    let bin = vec![0b01111111];
    assert_eq!(message::from_vlq(&bin), 127);
}

#[test]
fn from_vlq_2() {
    let bin = vec![0b11111111, 0b01111111];
    assert_eq!(message::from_vlq(&bin), 16383);
}

#[test]
fn to_vlq_1() {
    let num = 126;
    let expected = vec![0b01111110];
    assert_eq!(message::to_vlq(num), expected);
}

#[test]
fn to_vlq_2() {
    let num = 100000;
    let expected = vec![0b10000110, 0b10001101, 0b00100000];
    assert_eq!(message::to_vlq(num), expected);
}

#[test]
fn to_vlq_3() {
    let num = 1000;
    let expected = vec![0b10000111, 0b01101000];
    assert_eq!(message::to_vlq(num), expected);
}

#[test]
fn to_vlq_zero_is_one_zero_byte() {
    assert_eq!(message::to_vlq(0), vec![0x00]);
}

#[test]
fn to_vlq_largest_four_byte_value() {
    assert_eq!(message::to_vlq(0x0FFF_FFFF), vec![0xFF, 0xFF, 0xFF, 0x7F]);
    assert_eq!(message::to_vlq(0x80), vec![0x81, 0x00]);
}

#[test]
fn to_vlq_beyond_four_bytes_takes_five() {
    assert_eq!(message::to_vlq(0x1000_0000), vec![0x81, 0x80, 0x80, 0x80, 0x00]);
}

#[test]
fn decode_vlq_literal_cases() {
    assert_eq!(message::decode_vlq(&[0x7F]), Ok((127, 1)));
    assert_eq!(message::decode_vlq(&[0xFF, 0x7F]), Ok((16383, 2)));
    assert_eq!(message::decode_vlq(&[0x87, 0x68, 0x55]), Ok((1000, 2)));
    assert_eq!(message::decode_vlq(&[0x00, 0x90]), Ok((0, 1)));
}

#[test]
fn decode_vlq_too_long_is_invalid() {
    assert_eq!(message::decode_vlq(&[0x80, 0x80, 0x80, 0x80, 0x00]), Err(SmfError::InvalidVlq));
}

#[test]
fn decode_vlq_cut_short_is_truncated() {
    assert_eq!(message::decode_vlq(&[0x81, 0x80]), Err(SmfError::TruncatedInput));
    assert_eq!(message::decode_vlq(&[]), Err(SmfError::TruncatedInput));
}

#[test]
fn vlq_round_trip_on_chosen_values() {
    for v in [0u32, 1, 127, 128, 8191, 16383, 16384, 100000, 2097151, 2097152, 0x0FFF_FFFF] {
        let bytes = message::to_vlq(v);
        assert!(bytes.len() <= 4);
        assert_eq!(message::decode_vlq(&bytes), Ok((v, bytes.len())));
        assert_eq!(message::from_vlq(&bytes), v);
    }
}
