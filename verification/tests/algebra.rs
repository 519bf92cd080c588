use byteset::ByteSet;

fn set(bytes: &[u8]) -> ByteSet {
    ByteSet::from_bytes(bytes)
}

#[test]
fn binary_operations() {
    let a = set(&[1, 2, 3, 100, 200]);
    let b = set(&[3, 4, 200, 201]);
    assert!(a.or(b).eq(&set(&[1, 2, 3, 4, 100, 200, 201])));
    assert!(a.and(b).eq(&set(&[3, 200])));
    assert!(a.xor(b).eq(&set(&[1, 2, 4, 100, 201])));
    assert!(a.without_set(b).eq(&set(&[1, 2, 100])));
    assert!(a.with_set(b).eq(&a.or(b)));
    assert_eq!(a.inverted().len(), 251);
    assert!(!a.inverted().has(1) && a.inverted().has(0));
    assert!((a | b).eq(&a.or(b)));
    assert!((a & b).eq(&a.and(b)));
    assert!((a ^ b).eq(&a.xor(b)));
    assert!((!a).eq(&a.inverted()));
}

#[test]
fn assigning_operations() {
    let a = set(&[1, 2, 3]);
    let b = set(&[3, 4]);
    let mut x = a;
    x.or_assign(b);
    assert!(x.eq(&set(&[1, 2, 3, 4])));
    let mut x = a;
    x.and_assign(b);
    assert!(x.eq(&set(&[3])));
    let mut x = a;
    x.xor_assign(b);
    assert!(x.eq(&set(&[1, 2, 4])));
    let mut x = a;
    x.invert();
    assert_eq!(x.len(), 253);
    let mut x = a;
    x.add_set(b);
    assert_eq!(x.len(), 4);
    x.remove_set(b);
    assert!(x.eq(&set(&[1, 2])));
    let mut x = a;
    x |= b;
    assert_eq!(x.len(), 4);
    x &= b;
    assert!(x.eq(&b));
    x ^= a;
    assert!(x.eq(&set(&[1, 2, 4])));
}

#[test]
fn many_sets() {
    let sets = [set(&[1]), set(&[2, 3]), set(&[3, 250])];
    assert!(ByteSet::union(&sets).eq(&set(&[1, 2, 3, 250])));
    assert!(ByteSet::union(&[]).is_empty());
    let mut x = set(&[0]);
    x.add_sets(&sets);
    assert_eq!(x.len(), 5);
    x.remove_sets(&sets[1..]);
    assert!(x.eq(&set(&[0, 1])));
    assert!(set(&[9]).with_sets(&sets).eq(&set(&[1, 2, 3, 9, 250])));
    assert!(set(&[1, 2, 9]).without_sets(&sets).eq(&set(&[9])));
}

#[test]
fn comparisons() {
    let a = set(&[1, 2, 3]);
    let b = set(&[2, 3]);
    let c = set(&[100, 250]);
    assert!(a.eq(&set(&[3, 2, 1])));
    assert!(!a.eq(&b));
    assert!(a.ne(&b));
    assert!(!a.ne(&set(&[1, 2, 3])));
    assert!(a == set(&[1, 2, 3]));
    assert!(a != b);
    assert!(a.is_superset(&b) && !b.is_superset(&a));
    assert!(b.is_subset(&a) && !a.is_subset(&b));
    assert!(a.is_subset(&a) && a.is_superset(&a));
    assert!(a.is_disjoint(&c) && !a.intersects(&c));
    assert!(!a.is_disjoint(&b) && a.intersects(&b));
    assert!(ByteSet::new().is_subset(&c));
    assert!(ByteSet::new().is_disjoint(&ByteSet::new()));
    assert!(ByteSet::from_range(0..=255).is_superset(&c));
}
