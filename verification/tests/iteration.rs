use byteset::ByteSet;

#[test]
fn byteset_iter() {
    let set = ByteSet::from_range(48..=80).without_range(60..=68);
    let subset = set.and(ByteSet::from_range(56..=72));
    let mut it = subset.iter();
    assert_eq!(it.remaining(), 8);
    let bytes = it.collect_bytes();
    assert_eq!(bytes.len(), bytes.capacity());
    assert_eq!(bytes.len(), 8);
}

#[test]
fn iteration_is_in_increasing_order() {
    let s = ByteSet::from_bytes(&[255, 0, 64, 63, 128, 7]);
    let mut it = s.iter();
    assert_eq!(it.remaining(), 6);
    let mut out: Vec<u8> = Vec::new();
    while let Some(b) = it.next() {
        out.push(b);
    }
    assert_eq!(out, vec![0, 7, 63, 64, 128, 255]);
    assert_eq!(it.next(), None);
}

#[test]
fn remaining_counts_what_next_hands_out() {
    let s = ByteSet::from_range(250..=255).with_byte(3);
    let mut it = s.iter();
    let mut expected = 7;
    while expected > 0 {
        assert_eq!(it.remaining(), expected);
        assert!(it.next().is_some());
        expected -= 1;
    }
    assert_eq!(it.next(), None);
    let empty = ByteSet::new();
    let mut e = empty.iter();
    assert_eq!(e.remaining(), 0);
    assert_eq!(e.next(), None);
}

#[test]
fn cloned_cursor_continues_independently() {
    let s = ByteSet::from_bytes(&[1, 2]);
    let mut it = s.iter();
    assert_eq!(it.next(), Some(1));
    let mut copy = it.clone();
    assert_eq!(copy.next(), Some(2));
    assert_eq!(it.next(), Some(2));
    assert_eq!(copy.next(), None);
}

#[test]
fn size_hint_is_exact() {
    let s = ByteSet::from_bytes(&[1, 100, 200]);
    let mut it = s.iter();
    assert_eq!(it.size_hint(), (3, Some(3)));
    assert_eq!(it.next(), Some(1));
    assert_eq!(it.size_hint(), (2, Some(2)));
}

#[test]
fn collect_bytes_hands_out_the_rest_in_order() {
    let s = ByteSet::from_bytes(&[255, 9, 70, 130]);
    let mut it = s.iter();
    assert_eq!(it.next(), Some(9));
    assert_eq!(it.collect_bytes(), vec![70, 130, 255]);
    assert_eq!(it.next(), None);
    let empty = ByteSet::new();
    let mut e = empty.iter();
    assert!(e.collect_bytes().is_empty());
}
