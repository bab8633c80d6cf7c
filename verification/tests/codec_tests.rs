//! The codec: order preservation and round trips, on concrete values.

use typed_store::codec::KeyCodec;
use typed_store::codec::ValueCodec;
use typed_store::TypedStoreError;

#[test]
fn test_key_encoding_preserves_order() {
    // ascending keys give lexicographically ascending encodings
    let samples: Vec<u32> = vec![0, 1, 2, 255, 256, 65535, 65536, 123456789, u32::MAX];
    for w in samples.windows(2) {
        assert!(w[0].encode_key() < w[1].encode_key());
    }
    // the signed codec keeps the order across the sign boundary
    let signed: Vec<i32> = vec![i32::MIN, -123456789, -256, -1, 0, 1, 255, 123456789, i32::MAX];
    for w in signed.windows(2) {
        assert!(w[0].encode_key() < w[1].encode_key());
    }
    let bytes: Vec<u8> = vec![0, 1, 127, 128, 255];
    for w in bytes.windows(2) {
        assert!(w[0].encode_key() < w[1].encode_key());
    }
}

#[test]
fn test_key_encoding_exact_bytes() {
    assert_eq!(0x01020304u32.encode_key(), vec![1u8, 2, 3, 4]);
    assert_eq!(0u32.encode_key(), vec![0u8, 0, 0, 0]);
    assert_eq!(u32::MAX.encode_key(), vec![255u8, 255, 255, 255]);
    // the sign bit is flipped, so negative keys sort below positive ones
    assert_eq!(0i32.encode_key(), vec![128u8, 0, 0, 0]);
    assert_eq!((-1i32).encode_key(), vec![127u8, 255, 255, 255]);
    assert_eq!(i32::MIN.encode_key(), vec![0u8, 0, 0, 0]);
    assert_eq!(i32::MAX.encode_key(), vec![255u8, 255, 255, 255]);
    assert_eq!(7u8.encode_key(), vec![7u8]);
}

#[test]
fn test_key_round_trip() {
    for k in [0u32, 1, 255, 123456789, u32::MAX] {
        let enc = k.encode_key();
        assert_eq!(u32::decode_key(&enc), Ok(k));
    }
    for k in [i32::MIN, -5, 0, 5, i32::MAX] {
        let enc = k.encode_key();
        assert_eq!(i32::decode_key(&enc), Ok(k));
    }
    for k in [0u8, 128, 255] {
        let enc = k.encode_key();
        assert_eq!(u8::decode_key(&enc), Ok(k));
    }
}

#[test]
fn test_value_round_trip() {
    for v in ["", "123456789", "hello world", "\u{1F600} ünïcodé"] {
        let owned = v.to_string();
        let enc = owned.encode_value();
        assert_eq!(String::decode_value(&enc), Ok(owned));
    }
    for v in [0u8, 7, 255] {
        let enc = v.encode_value();
        assert_eq!(u8::decode_value(&enc), Ok(v));
    }
}

#[test]
fn test_key_decode_rejects_wrong_length() {
    assert_eq!(
        u32::decode_key(&[1u8, 2, 3]),
        Err(TypedStoreError::DecodeError)
    );
    assert_eq!(
        u32::decode_key(&[1u8, 2, 3, 4, 5]),
        Err(TypedStoreError::DecodeError)
    );
    assert_eq!(u8::decode_key(&[]), Err(TypedStoreError::DecodeError));
    assert_eq!(
        i32::decode_key(&[1u8]),
        Err(TypedStoreError::DecodeError)
    );
}

#[test]
fn test_value_decode_rejects_invalid_utf8() {
    // 0xFF can never begin a UTF-8 sequence
    assert_eq!(
        String::decode_value(&[0xFFu8, 0x30]),
        Err(TypedStoreError::DecodeError)
    );
    // a lone continuation byte is rejected too
    assert_eq!(
        String::decode_value(&[0x80u8]),
        Err(TypedStoreError::DecodeError)
    );
    assert_eq!(
        u8::decode_value(&[1u8, 2]),
        Err(TypedStoreError::DecodeError)
    );
}
