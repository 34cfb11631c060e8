use gob::wire::encode_blob;
use gob::wire::encode_bool;
use gob::wire::encode_int;
use gob::wire::encode_uint;

#[test]
fn unsigned_below_128_is_one_byte() {
    assert_eq!(encode_uint(0), vec![0x00]);
    assert_eq!(encode_uint(1), vec![0x01]);
    assert_eq!(encode_uint(127), vec![0x7F]);
}

#[test]
fn unsigned_with_negated_count_byte() {
    assert_eq!(encode_uint(128), vec![0xFF, 0x80]);
    assert_eq!(encode_uint(255), vec![0xFF, 0xFF]);
    assert_eq!(encode_uint(256), vec![0xFE, 0x01, 0x00]);
    assert_eq!(encode_uint(0x1234), vec![0xFE, 0x12, 0x34]);
    assert_eq!(
        encode_uint(u64::MAX),
        vec![0xF8, 0xFF, 0xFF, 0xFF, 0xFF, 0xFF, 0xFF, 0xFF, 0xFF]
    );
}

#[test]
fn signed_sign_bit_in_bit_zero() {
    assert_eq!(encode_int(0), vec![0x00]);
    assert_eq!(encode_int(1), vec![0x02]);
    assert_eq!(encode_int(-1), vec![0x01]);
    assert_eq!(encode_int(7), vec![0x0E]);
    assert_eq!(encode_int(-7), vec![0x0D]);
    assert_eq!(encode_int(64), vec![0xFF, 0x80]);
    assert_eq!(encode_int(-64), vec![0x7F]);
}

#[test]
fn signed_extremes() {
    assert_eq!(
        encode_int(i64::MAX),
        vec![0xF8, 0xFF, 0xFF, 0xFF, 0xFF, 0xFF, 0xFF, 0xFF, 0xFE]
    );
    assert_eq!(
        encode_int(i64::MIN),
        vec![0xF8, 0xFF, 0xFF, 0xFF, 0xFF, 0xFF, 0xFF, 0xFF, 0xFF]
    );
}

#[test]
fn bool_is_zero_or_one() {
    assert_eq!(encode_bool(false), vec![0x00]);
    assert_eq!(encode_bool(true), vec![0x01]);
}

#[test]
fn blob_is_length_then_bytes() {
    assert_eq!(encode_blob(&[]), vec![0x00]);
    assert_eq!(encode_blob(&[0xAB, 0xCD]), vec![0x02, 0xAB, 0xCD]);
}
