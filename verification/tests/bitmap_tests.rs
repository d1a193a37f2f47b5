use ferrite::Bitmap;

fn test_bitmap_for(len: usize) {
    let mut bitmap = Bitmap::new(len);
    assert_eq!(bitmap.len(), len);
    assert!(!bitmap.is_empty());
    assert!(!bitmap.filled());
    for i in 0..len {
        assert!(!bitmap.get(i));
        bitmap.set(i, true);
    }
    assert!(bitmap.filled());
    for i in 0..len {
        assert!(bitmap.get(i));
        bitmap.set(i, false);
    }
    assert!(!bitmap.filled());
}

#[test]
fn test_bitmap() {
    test_bitmap_for(1);
    test_bitmap_for(32);
    test_bitmap_for(96);
    test_bitmap_for(128);
    test_bitmap_for(129);
    test_bitmap_for(192);
    test_bitmap_for(256);
}

#[test]
fn test_bitmap_word_boundaries() {
    test_bitmap_for(127);
    test_bitmap_for(255);
}

#[test]
fn test_empty_bitmap() {
    let bitmap = Bitmap::new(0);
    assert_eq!(bitmap.len(), 0);
    assert!(bitmap.is_empty());
    let filled = Bitmap::new_filled(0);
    assert_eq!(filled.len(), 0);
    assert!(filled.is_empty());
}

#[test]
fn test_new_filled() {
    for len in [1usize, 127, 128, 129, 256] {
        let bitmap = Bitmap::new_filled(len);
        assert_eq!(bitmap.len(), len);
        assert!(bitmap.filled());
        for i in 0..len {
            assert!(bitmap.get(i));
        }
    }
}

#[test]
fn test_set_near_boundary_keeps_filled_accurate() {
    let mut bitmap = Bitmap::new_filled(129);
    assert!(bitmap.filled());
    bitmap.set(128, false);
    assert!(!bitmap.filled());
    bitmap.set(128, true);
    assert!(bitmap.filled());
    bitmap.set(127, false);
    assert!(!bitmap.filled());
    bitmap.set(127, true);
    assert!(bitmap.filled());
}

#[test]
fn test_boolean_algebra() {
    let len = 200usize;
    let mut a = Bitmap::new(len);
    let mut b = Bitmap::new(len);
    for i in 0..len {
        a.set(i, i % 2 == 0);
        b.set(i, i % 3 == 0);
    }
    let both = a.and(&b);
    let either = a.or(&b);
    let flipped = a.inverse();
    for i in 0..len {
        assert_eq!(both.get(i), a.get(i) && b.get(i));
        assert_eq!(either.get(i), a.get(i) || b.get(i));
        assert_eq!(flipped.get(i), !a.get(i));
    }
    // operands untouched
    for i in 0..len {
        assert_eq!(a.get(i), i % 2 == 0);
        assert_eq!(b.get(i), i % 3 == 0);
    }
}

#[test]
fn test_in_place_matches_functional() {
    let len = 129usize;
    let mut a = Bitmap::new(len);
    let mut b = Bitmap::new(len);
    for i in 0..len {
        a.set(i, i % 5 == 0);
        b.set(i, i % 2 == 1);
    }
    let and_copy = a.and(&b);
    let or_copy = a.or(&b);
    let mut a2 = Bitmap::new(len);
    for i in 0..len {
        a2.set(i, i % 5 == 0);
    }
    let mut a3 = Bitmap::new(len);
    for i in 0..len {
        a3.set(i, i % 5 == 0);
    }
    a2.in_place_and(&b);
    a3.in_place_or(&b);
    for i in 0..len {
        assert_eq!(a2.get(i), and_copy.get(i));
        assert_eq!(a3.get(i), or_copy.get(i));
    }
}

#[test]
fn test_iteration_order() {
    let len = 140usize;
    let mut bitmap = Bitmap::new(len);
    for i in 0..len {
        bitmap.set(i, i % 7 == 0);
    }
    let mut it = bitmap.iter();
    for i in 0..len {
        assert_eq!(it.next(), Some(i % 7 == 0));
    }
    assert_eq!(it.next(), None);
    assert_eq!(it.next(), None);
    // a second cursor is independent and yields the same contents
    let first: Vec<bool> = bitmap.to_vec();
    let second: Vec<bool> = bitmap.to_vec();
    assert_eq!(first, second);
    assert_eq!(first.len(), len);
    for i in 0..len {
        assert_eq!(first[i], bitmap.get(i));
    }
}

#[test]
fn test_scenario_129_bits() {
    let mut bitmap = Bitmap::new(129);
    bitmap.set(0, true);
    bitmap.set(128, true);
    assert!(bitmap.get(0));
    assert!(bitmap.get(128));
    assert!(!bitmap.get(64));
    assert!(!bitmap.filled());
    for i in 0..129 {
        bitmap.set(i, true);
    }
    assert!(bitmap.filled());
    let inverted = bitmap.inverse();
    for i in 0..129 {
        assert!(!inverted.get(i));
    }
    assert!(!inverted.filled());
    assert!(!inverted.is_empty());
}
