use byteset::ByteSet;

fn sample() -> ByteSet {
    ByteSet::from_array([0x0102_0304_0506_0708, 0xff, 0, 0x8000_0000_0000_0001])
}

#[test]
fn little_endian_bytes() {
    let b = sample().to_le_bytes();
    assert_eq!(&b[0..8], &[8, 7, 6, 5, 4, 3, 2, 1]);
    assert_eq!(&b[8..16], &[0xff, 0, 0, 0, 0, 0, 0, 0]);
    assert_eq!(&b[16..24], &[0; 8]);
    assert_eq!(&b[24..32], &[1, 0, 0, 0, 0, 0, 0, 0x80]);
    assert!(ByteSet::from_le_bytes(b).eq(&sample()));
}

#[test]
fn big_endian_bytes() {
    let b = sample().to_be_bytes();
    assert_eq!(&b[0..8], &[1, 2, 3, 4, 5, 6, 7, 8]);
    assert_eq!(&b[8..16], &[0, 0, 0, 0, 0, 0, 0, 0xff]);
    assert_eq!(&b[24..32], &[0x80, 0, 0, 0, 0, 0, 0, 1]);
    assert!(ByteSet::from_be_bytes(b).eq(&sample()));
}

#[test]
fn native_bytes_follow_one_byte_order() {
    let b = sample().to_ne_bytes();
    assert!(b == sample().to_le_bytes() || b == sample().to_be_bytes());
    assert!(ByteSet::from_ne_bytes(b).eq(&sample()));
    let mut raw = [0u8; 32];
    raw[0] = 1;
    let s = ByteSet::from_ne_bytes(raw);
    assert_eq!(s.len(), 1);
    assert!(s.has(0) || s.has(56));
    assert_eq!(s.to_ne_bytes(), raw);
}

#[test]
fn bytes_decode_then_encode() {
    let mut raw = [0u8; 32];
    let mut i = 0;
    while i < 32 {
        raw[i] = (i as u8) * 7 + 3;
        i += 1;
    }
    assert_eq!(ByteSet::from_le_bytes(raw).to_le_bytes(), raw);
    assert_eq!(ByteSet::from_be_bytes(raw).to_be_bytes(), raw);
    assert_eq!(ByteSet::from_ne_bytes(raw).to_ne_bytes(), raw);
    assert_eq!(ByteSet::from_le_bytes(raw).get_mask0(), u64::from_le_bytes([3, 10, 17, 24, 31, 38, 45, 52]));
}
