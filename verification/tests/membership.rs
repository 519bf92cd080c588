use byteset::ByteSet;

#[test]
fn new_set_is_empty() {
    let s = ByteSet::new();
    assert!(s.is_empty());
    assert!(!s.is_full());
    assert_eq!(s.len(), 0);
    assert_eq!(s.to_array(), [0, 0, 0, 0]);
    let d: ByteSet = Default::default();
    assert!(d.eq(&s));
}

#[test]
fn add_and_remove_single_bytes() {
    let mut s = ByteSet::new();
    s.add_byte(0);
    s.add_byte(63);
    s.add_byte(64);
    s.add_byte(255);
    assert!(s.has(0) && s.has(63) && s.has(64) && s.has(255));
    assert!(!s.has(1) && !s.has(65) && !s.has(254));
    assert_eq!(s.len(), 4);
    assert_eq!(s.to_array(), [1 | (1 << 63), 1, 0, 1 << 63]);
    s.remove_byte(63);
    assert!(!s.has(63));
    s.remove_byte(63);
    assert_eq!(s.len(), 3);
    s.set_byte(7, true);
    assert!(s.has(7));
    s.set_byte(7, false);
    assert!(!s.has(7));
    let t = s.with_byte(200).without_byte(0);
    assert!(t.has(200) && !t.has(0));
    assert!(s.has(0) && !s.has(200));
}

#[test]
fn bytes_slices() {
    let s = ByteSet::from_bytes(b"hello");
    assert_eq!(s.len(), 4);
    assert!(s.has(b'h') && s.has(b'e') && s.has(b'l') && s.has(b'o'));
    assert!(!s.has(b'x'));
    let mut t = s;
    t.remove_bytes(b"lo");
    assert_eq!(t.len(), 2);
    t.add_bytes(b"xyz");
    assert_eq!(t.len(), 5);
    t.set_bytes(b"xh", false);
    assert!(!t.has(b'x') && !t.has(b'h'));
    t.set_bytes(b"xh", true);
    assert!(t.has(b'x') && t.has(b'h'));
    let u = s.with_bytes(&[0, 255]).without_bytes(b"he");
    assert_eq!(u.len(), 4);
    assert!(u.has(0) && u.has(255) && !u.has(b'h'));
    assert!(ByteSet::from_bytes(&[]).is_empty());
}

#[test]
fn has_any_all_some() {
    let s = ByteSet::from_bytes(b"abc");
    assert!(s.has_any(b"xa"));
    assert!(!s.has_any(b"xyz"));
    assert!(!s.has_any(b""));
    assert!(s.has_all(b"cab"));
    assert!(!s.has_all(b"abd"));
    assert!(s.has_all(b""));
    assert!(s.has_some(b"ad"));
    assert!(s.has_some(b"da"));
    assert!(!s.has_some(b"abc"));
    assert!(!s.has_some(b"xyz"));
    assert!(!s.has_some(b""));
}

#[test]
fn chars() {
    let s = ByteSet::from_bytes(&[b'a', 0xe9]);
    assert!(s.has_char('a'));
    assert!(s.has_char('\u{e9}'));
    assert!(!s.has_char('b'));
    assert!(!s.has_char('\u{161}'));
    let t = ByteSet::from_range(0..=255);
    assert!(!t.has_char('\u{100}'));
    assert!(t.has_char('\u{ff}'));
    assert!(s.has_any_char(&['x', 'a']));
    assert!(!s.has_any_char(&['x', '\u{1e9}']));
    assert!(s.has_all_chars(&['a', '\u{e9}']));
    assert!(!s.has_all_chars(&['a', '\u{1e9}']));
    assert!(s.has_some_chars(&['a', '\u{1e9}']));
    assert!(!s.has_some_chars(&['a', '\u{e9}']));
    assert!(!s.has_some_chars(&[]));
}

#[test]
fn masks() {
    let s = ByteSet::from_array([1, 2, 3, 4]);
    assert_eq!(s.get_mask(0), 1);
    assert_eq!(s.get_mask(3), 4);
    assert_eq!(s.get_mask0(), 1);
    assert_eq!(s.get_mask1(), 2);
    assert_eq!(s.get_mask2(), 3);
    assert_eq!(s.get_mask3(), 4);
    assert_eq!(s.to_array(), [1, 2, 3, 4]);
    assert!(s.has(0) && s.has(65) && s.has(128) && s.has(129) && s.has(194));
    assert_eq!(s.len(), 5);
}
