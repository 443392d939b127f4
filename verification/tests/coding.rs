use kvcore::coding::{decode_fixed_32, decode_fixed_64, encode_fixed_32, encode_fixed_64,
    encode_varint_32, get_varint_32_ptr_fall_back, get_varint_64, get_varint_64_ptr,
    get_varint_64_slice, put_fixed_32, put_fixed_64};
use kvcore::slice::Slice;

#[test]
fn fixed_32() {}

#[test]
fn fixed_64() {}

#[test]
fn varint_32() {}

#[test]
fn varint_64() {}

#[test]
fn put_varint_32() {}

#[test]
fn put_varint_64() {}

#[test]
fn varint_length() {}

#[test]
fn length_prefixed_slice() {}

#[test]
fn fixed_32_round_trip() {
    let mut dst = vec![0u8; 8];
    encode_fixed_32(&mut dst, 0x04030201);
    assert_eq!(&dst[..4], &[0x01, 0x02, 0x03, 0x04]);
    assert_eq!(decode_fixed_32(&dst), 0x04030201);

    let mut buf: Vec<u8> = Vec::new();
    for v in [0u32, 1, 255, 256, 0xdeadbeef, u32::MAX] {
        buf.clear();
        put_fixed_32(&mut buf, v);
        assert_eq!(buf.len(), 4);
        assert_eq!(decode_fixed_32(&buf), v);
    }
}

#[test]
fn fixed_64_round_trip() {
    let mut dst = vec![0u8; 8];
    encode_fixed_64(&mut dst, 0x0807060504030201);
    assert_eq!(dst, vec![0x01, 0x02, 0x03, 0x04, 0x05, 0x06, 0x07, 0x08]);
    assert_eq!(decode_fixed_64(&dst), 0x0807060504030201);

    let mut buf: Vec<u8> = Vec::new();
    for v in [0u64, 1, 255, 256, 0xdeadbeefcafef00d, u64::MAX] {
        buf.clear();
        put_fixed_64(&mut buf, v);
        assert_eq!(buf.len(), 8);
        assert_eq!(decode_fixed_64(&buf), v);
    }
}

#[test]
fn varint_round_trip() {
    let mut buf: Vec<u8> = Vec::new();
    for v in [0u64, 1, 127, 128, 129, 16383, 16384, 1 << 32, u64::MAX] {
        buf.clear();
        kvcore::coding::put_varint_64(&mut buf, v);
        assert_eq!(buf.len(), kvcore::coding::varint_length(v));
        let (decoded, used) = get_varint_64(&buf).unwrap();
        assert_eq!(decoded, v);
        assert_eq!(used, buf.len());
    }
}

#[test]
fn varint_32_round_trip() {
    let mut buf: Vec<u8> = Vec::new();
    for v in [0u32, 1, 127, 128, 300, 65535, u32::MAX] {
        buf.clear();
        kvcore::coding::put_varint_32(&mut buf, v);
        let (decoded, used) = get_varint_32_ptr_fall_back(&buf).unwrap();
        assert_eq!(decoded, v);
        assert_eq!(used, buf.len());
    }
    let mut dst = vec![0u8; 5];
    encode_varint_32(&mut dst, 300);
    assert_eq!(&dst[..2], &[0xac, 0x02]);
}

#[test]
fn varint_length_values() {
    assert_eq!(kvcore::coding::varint_length(0), 1);
    assert_eq!(kvcore::coding::varint_length(127), 1);
    assert_eq!(kvcore::coding::varint_length(128), 2);
    assert_eq!(kvcore::coding::varint_length(16383), 2);
    assert_eq!(kvcore::coding::varint_length(16384), 3);
    assert_eq!(kvcore::coding::varint_length(u64::MAX), 10);
}

#[test]
fn varint_errors() {
    // input ends inside a continuation run
    assert!(get_varint_64(&[0x80, 0x80]).is_none());
    assert!(get_varint_64(&[]).is_none());
    // eleven continuation bytes never terminate within the limit
    assert!(get_varint_64(&[0x80; 11]).is_none());
    // ten bytes whose terminator pushes past 64 bits
    let mut too_big = vec![0xffu8; 9];
    too_big.push(0x02);
    assert!(get_varint_64(&too_big).is_none());
    // a value above 32 bits is rejected by the 32-bit decoder
    let mut buf: Vec<u8> = Vec::new();
    kvcore::coding::put_varint_64(&mut buf, 1 << 35);
    assert!(get_varint_32_ptr_fall_back(&buf).is_none());
}

#[test]
fn varint_offset_and_slice() {
    let mut buf: Vec<u8> = vec![0xaa, 0xbb];
    kvcore::coding::put_varint_64(&mut buf, 999);
    let (v, n) = get_varint_64_ptr(&buf, 2).unwrap();
    assert_eq!(v, 999);
    assert_eq!(n, 2);

    let mut s = Slice::new(buf[2..].to_vec());
    let v = get_varint_64_slice(&mut s).unwrap();
    assert_eq!(v, 999);
    assert_eq!(s.size(), 0);
    assert!(get_varint_64_slice(&mut s).is_none());
}

#[test]
fn length_prefixed_slice_round_trip() {
    let mut buf: Vec<u8> = Vec::new();
    kvcore::coding::put_length_prefixed_slice(&mut buf, &Slice::new(b"hello".to_vec()));
    kvcore::coding::put_length_prefixed_slice(&mut buf, &Slice::new(Vec::new()));
    assert_eq!(buf, vec![5, b'h', b'e', b'l', b'l', b'o', 0]);
    let (len, used) = get_varint_64(&buf).unwrap();
    assert_eq!(len, 5);
    assert_eq!(&buf[used..used + 5], b"hello");
}
