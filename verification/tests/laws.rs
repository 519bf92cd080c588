use byteset::ByteSet;

#[test]
fn equality_is_membership() {
    let a = ByteSet::from_bytes(&[5, 70, 140]);
    let b = ByteSet::new().with_byte(140).with_byte(70).with_byte(5);
    assert!(a == b);
    assert!(a.eq(&b));
    assert_eq!(a.to_array(), b.to_array());
}

#[test]
fn double_inversion_is_identity() {
    let a = ByteSet::from_bytes(&[0, 99, 255]);
    assert!(a.inverted().inverted() == a);
    assert!(ByteSet::new().inverted().is_full());
}

#[test]
fn xor_is_or_without_and() {
    let a = ByteSet::from_range(10..=100);
    let b = ByteSet::from_range(50..=200);
    assert!(a.xor(b) == a.or(b).without_set(a.and(b)));
}

#[test]
fn len_bounds() {
    assert_eq!(ByteSet::new().len(), 0);
    assert!(ByteSet::new().is_empty());
    let full = ByteSet::new().inverted();
    assert_eq!(full.len(), 256);
    assert!(full.is_full());
    let almost = full.without_byte(77);
    assert_eq!(almost.len(), 255);
    assert!(!almost.is_full() && !almost.is_empty());
}

#[test]
fn range_len() {
    assert_eq!(ByteSet::from_range(3..=3).len(), 1);
    assert_eq!(ByteSet::from_range(0..=255).len(), 256);
    assert_eq!(ByteSet::from_range(63..=64).len(), 2);
    assert_eq!(ByteSet::from_range(100..=199).len(), 100);
}

#[test]
fn array_roundtrip() {
    let words = [7, 0, u64::MAX, 1 << 40];
    assert_eq!(ByteSet::from_array(words).to_array(), words);
    let s = ByteSet::from_bytes(b"roundtrip");
    assert!(ByteSet::from_array(s.to_array()) == s);
}

#[test]
fn encoding_roundtrips() {
    let s = ByteSet::from_bytes(&[0, 1, 9, 64, 100, 191, 192, 255]);
    assert!(ByteSet::from_le_bytes(s.to_le_bytes()) == s);
    assert!(ByteSet::from_be_bytes(s.to_be_bytes()) == s);
    assert!(ByteSet::from_ne_bytes(s.to_ne_bytes()) == s);
}

#[test]
fn next_lowers_remaining() {
    let s = ByteSet::from_bytes(&[10, 20, 30]);
    let mut it = s.iter();
    let before = it.remaining();
    assert_eq!(it.next(), Some(10));
    assert_eq!(it.remaining() + 1, before);
}

#[test]
fn iteration_hands_out_every_member_once_in_order() {
    let s = ByteSet::from_bytes(&[200, 3, 64, 63, 0, 255, 128]).with_range(100..=102);
    let mut it = s.iter();
    let mut ys: Vec<u8> = Vec::new();
    while let Some(b) = it.next() {
        ys.push(b);
    }
    assert_eq!(ys, vec![0, 3, 63, 64, 100, 101, 102, 128, 200, 255]);
    assert_eq!(ys.len(), s.len());
    let mut b: u16 = 0;
    while b < 256 {
        assert_eq!(ys.contains(&(b as u8)), s.has(b as u8));
        b += 1;
    }
}

#[test]
fn remaining_after_k_items_is_len_minus_k() {
    let s = ByteSet::from_range(60..=70).with_byte(5).with_byte(254);
    let mut it = s.iter();
    let mut k = 0;
    while k < 12 {
        assert_eq!(it.remaining(), s.len() - k);
        assert!(it.next().is_some());
        k += 1;
    }
    assert_eq!(it.remaining(), s.len() - 12);
    let mut rest = 0;
    while it.next().is_some() {
        rest += 1;
    }
    assert_eq!(rest, s.len() - 12);
}
