use minikafka::codec::{
    decode_compact_bytes, decode_compact_string, decode_nullable_string, decode_unsigned_varint,
    encode_compact_string, encode_nullable_string, encode_unsigned_varint, read_i16, read_i32,
    read_i64, read_u128, read_u16, read_u32, read_u8, write_i16, write_i32, write_i64, write_u128,
    write_u16, write_u32,
};
use minikafka::utf8::validate_utf8;
use minikafka::DecodeError;

fn varint_roundtrip(x: u32) {
    let mut out: Vec<u8> = Vec::new();
    encode_unsigned_varint(&mut out, x);
    let mut pos: usize = 0;
    assert_eq!(decode_unsigned_varint(&out, &mut pos), Ok(x));
    assert_eq!(pos, out.len());
}

#[test]
fn varint_roundtrips() {
    for x in [0u32, 1, 127, 128, 129, 300, 16383, 16384, 65535, 1 << 21, u32::MAX] {
        varint_roundtrip(x);
    }
}

#[test]
fn varint_exact_encoding() {
    let mut out: Vec<u8> = Vec::new();
    encode_unsigned_varint(&mut out, 300);
    assert_eq!(out, vec![0xAC, 0x02]);
    let mut out2: Vec<u8> = Vec::new();
    encode_unsigned_varint(&mut out2, 0);
    assert_eq!(out2, vec![0x00]);
}

#[test]
fn varint_truncated_never_a_value() {
    // A stream that ends before its terminating (high-bit-clear) byte.
    for bytes in [vec![0x80u8], vec![0xFF, 0x80], vec![0x80, 0x80, 0x80, 0x80]] {
        let mut pos: usize = 0;
        assert_eq!(decode_unsigned_varint(&bytes, &mut pos), Err(DecodeError::Truncated));
    }
}

#[test]
fn varint_too_large() {
    let bytes = vec![0x80u8, 0x80, 0x80, 0x80, 0x80, 0x01];
    let mut pos: usize = 0;
    assert_eq!(decode_unsigned_varint(&bytes, &mut pos), Err(DecodeError::VarintTooLarge));
}

#[test]
fn nullable_string_roundtrip_null() {
    let mut out: Vec<u8> = Vec::new();
    encode_nullable_string(&mut out, &None);
    assert_eq!(out, vec![0xFF, 0xFF]);
    let mut pos: usize = 0;
    assert_eq!(decode_nullable_string(&out, &mut pos), Ok(None));
    assert_eq!(pos, 2);
}

#[test]
fn nullable_string_roundtrip_value() {
    let s = b"hello".to_vec();
    let mut out: Vec<u8> = Vec::new();
    encode_nullable_string(&mut out, &Some(s.clone()));
    assert_eq!(out, vec![0, 5, b'h', b'e', b'l', b'l', b'o']);
    let mut pos: usize = 0;
    assert_eq!(decode_nullable_string(&out, &mut pos), Ok(Some(s)));
    assert_eq!(pos, out.len());
}

#[test]
fn nullable_string_negative_length() {
    // Length -2 (other than the -1 null sentinel) is invalid.
    let bytes = vec![0xFF, 0xFE];
    let mut pos: usize = 0;
    assert_eq!(decode_nullable_string(&bytes, &mut pos), Err(DecodeError::InvalidLength));
}

#[test]
fn nullable_string_truncated_data() {
    let bytes = vec![0, 5, b'h', b'i'];
    let mut pos: usize = 0;
    assert_eq!(decode_nullable_string(&bytes, &mut pos), Err(DecodeError::Truncated));
}

#[test]
fn nullable_string_invalid_utf8() {
    let bytes = vec![0, 2, 0xC0, 0xAF];
    let mut pos: usize = 0;
    assert_eq!(decode_nullable_string(&bytes, &mut pos), Err(DecodeError::InvalidUtf8));
}

#[test]
fn compact_string_roundtrip_null() {
    let mut out: Vec<u8> = Vec::new();
    encode_compact_string(&mut out, &None);
    assert_eq!(out, vec![0x00]);
    let mut pos: usize = 0;
    assert_eq!(decode_compact_string(&out, &mut pos), Ok(None));
    assert_eq!(pos, 1);
}

#[test]
fn compact_string_roundtrip_value() {
    let s = b"foo".to_vec();
    let mut out: Vec<u8> = Vec::new();
    encode_compact_string(&mut out, &Some(s.clone()));
    assert_eq!(out, vec![4, b'f', b'o', b'o']);
    let mut pos: usize = 0;
    assert_eq!(decode_compact_string(&out, &mut pos), Ok(Some(s)));
    assert_eq!(pos, out.len());
}

#[test]
fn compact_string_invalid_utf8() {
    let bytes = vec![2, 0xFF];
    let mut pos: usize = 0;
    assert_eq!(decode_compact_string(&bytes, &mut pos), Err(DecodeError::InvalidUtf8));
}

#[test]
fn compact_bytes_accepts_raw_bytes() {
    let bytes = vec![3, 0xFF, 0x00];
    let mut pos: usize = 0;
    assert_eq!(decode_compact_bytes(&bytes, &mut pos), Ok(Some(vec![0xFF, 0x00])));
}

#[test]
fn fixed_width_roundtrips() {
    let mut out: Vec<u8> = Vec::new();
    write_u16(&mut out, 0xBEEF);
    write_u32(&mut out, 0xDEADBEEF);
    write_i16(&mut out, -2);
    write_i32(&mut out, -1);
    write_i64(&mut out, -1);
    write_u128(&mut out, 0x0102030405060708090A0B0C0D0E0F10);
    let mut pos: usize = 0;
    assert_eq!(read_u16(&out, &mut pos), Ok(0xBEEF));
    assert_eq!(read_u32(&out, &mut pos), Ok(0xDEADBEEF));
    assert_eq!(read_i16(&out, &mut pos), Ok(-2));
    assert_eq!(read_i32(&out, &mut pos), Ok(-1));
    assert_eq!(read_i64(&out, &mut pos), Ok(-1));
    assert_eq!(read_u128(&out, &mut pos), Ok(0x0102030405060708090A0B0C0D0E0F10));
    assert_eq!(pos, out.len());
}

#[test]
fn fixed_width_exact_bytes() {
    let mut out: Vec<u8> = Vec::new();
    write_i32(&mut out, -1);
    assert_eq!(out, vec![0xFF, 0xFF, 0xFF, 0xFF]);
    let mut out2: Vec<u8> = Vec::new();
    write_u16(&mut out2, 300);
    assert_eq!(out2, vec![0x01, 0x2C]);
}

#[test]
fn read_u8_truncated() {
    let bytes: Vec<u8> = Vec::new();
    let mut pos: usize = 0;
    assert_eq!(read_u8(&bytes, &mut pos), Err(DecodeError::Truncated));
}

#[test]
fn utf8_validation() {
    assert!(validate_utf8(&b"plain ascii".to_vec()));
    assert!(validate_utf8(&"héllo €100 𝄞".as_bytes().to_vec()));
    assert!(validate_utf8(&Vec::new()));
    // Lone continuation byte.
    assert!(!validate_utf8(&vec![0x80]));
    // Overlong encoding of '/'.
    assert!(!validate_utf8(&vec![0xC0, 0xAF]));
    // A surrogate code point.
    assert!(!validate_utf8(&vec![0xED, 0xA0, 0x80]));
    // Above 0x10FFFF.
    assert!(!validate_utf8(&vec![0xF4, 0x90, 0x80, 0x80]));
    // Truncated multi-byte sequence.
    assert!(!validate_utf8(&vec![0xE2, 0x82]));
    // These agree with the standard library's judgement.
    for bytes in [vec![0xC2u8, 0xA9], vec![0xF0, 0x9F, 0x98, 0x80], vec![0xF5, 0x80]] {
        assert_eq!(validate_utf8(&bytes), std::str::from_utf8(&bytes).is_ok());
    }
}
