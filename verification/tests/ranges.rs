use byteset::ByteSet;

#[test]
fn ranges_within_and_across_words() {
    let s = ByteSet::from_range(10..=20);
    assert_eq!(s.len(), 11);
    assert!(s.has(10) && s.has(20) && !s.has(9) && !s.has(21));
    let t = ByteSet::from_range(60..=200);
    assert_eq!(t.len(), 141);
    assert!(t.has(60) && t.has(64) && t.has(127) && t.has(128) && t.has(200));
    assert!(!t.has(59) && !t.has(201));
    assert_eq!(t.get_mask1(), u64::MAX);
    assert_eq!(t.get_mask0(), 0xf000_0000_0000_0000);
    let one = ByteSet::from_range(42..=42);
    assert_eq!(one.len(), 1);
    let full = ByteSet::from_range(0..=255);
    assert!(full.is_full());
    assert_eq!(full.len(), 256);
    assert_eq!(full.to_array(), [u64::MAX; 4]);
}

#[test]
fn remove_and_set_ranges() {
    let mut s = ByteSet::from_range(0..=255);
    s.remove_range(1..=254);
    assert_eq!(s.len(), 2);
    assert!(s.has(0) && s.has(255));
    s.add_range(100..=101);
    assert_eq!(s.len(), 4);
    s.set_range(0..=100, false);
    assert_eq!(s.len(), 2);
    assert!(s.has(101) && s.has(255));
    s.set_range(64..=127, true);
    assert_eq!(s.len(), 65);
    let r = ByteSet::new().with_range(5..=9).without_range(6..=7);
    assert_eq!(r.len(), 3);
}

#[test]
fn many_ranges() {
    let mut s = ByteSet::new();
    s.add_ranges(&[0..=3, 250..=255, 2..=5]);
    assert_eq!(s.len(), 12);
    s.remove_ranges(&[1..=1, 254..=255]);
    assert_eq!(s.len(), 9);
    let t = ByteSet::new().with_ranges(&[b'a'..=b'c', b'x'..=b'z']);
    assert!(t.eq(&ByteSet::from_bytes(b"abcxyz")));
    let u = t.without_ranges(&[b'a'..=b'b']);
    assert!(u.eq(&ByteSet::from_bytes(b"cxyz")));
    let e = ByteSet::new().with_ranges(&[]);
    assert!(e.is_empty());
}

#[test]
fn range_subset_keeps_only_range() {
    let s = ByteSet::from_bytes(&[1, 50, 100, 150, 200]);
    let t = s.range_subset(50..=150);
    assert!(t.eq(&ByteSet::from_bytes(&[50, 100, 150])));
}

#[test]
fn named_sets() {
    assert_eq!(ByteSet::ascii_lowercase().to_array(), [0, 0x07ff_fffe_0000_0000, 0, 0]);
    assert_eq!(ByteSet::ascii_uppercase().to_array(), [0, 0x07ff_fffe, 0, 0]);
    assert_eq!(ByteSet::ascii_letters().to_array(), [0, 0x07ff_fffe_07ff_fffe, 0, 0]);
    assert_eq!(ByteSet::ascii_digits().to_array(), [0x03ff_0000_0000_0000, 0, 0, 0]);
    assert_eq!(ByteSet::hex_digits().to_array(), [0x03ff_0000_0000_0000, 0x7e_0000_007e, 0, 0]);
    assert_eq!(ByteSet::octal_digits().to_array(), [0x00ff_0000_0000_0000, 0, 0, 0]);
    assert_eq!(
        ByteSet::ascii_printable().to_array(),
        [0xffff_ffff_0000_3e00, 0x7fff_ffff_ffff_ffff, 0, 0]
    );
    assert_eq!(
        ByteSet::ascii_non_printable().to_array(),
        [0xffff_c1ff, 0x8000_0000_0000_0000, u64::MAX, u64::MAX]
    );
    assert_eq!(
        ByteSet::ascii_symbols().to_array(),
        [0xfc00_fffe_0000_0000, 0x7800_0001_f800_0001, 0, 0]
    );
    assert_eq!(ByteSet::ascii_letters().len(), 52);
    assert_eq!(ByteSet::hex_digits().len(), 22);
    assert_eq!(ByteSet::ascii_printable().len(), 100);
    assert_eq!(ByteSet::ascii_non_printable().len(), 156);
    assert_eq!(ByteSet::ascii_symbols().len(), 32);
}
