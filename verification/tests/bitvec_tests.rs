use ecc::bitvec::BitVec;

#[test]
fn push_pop_get() {
    let mut bv = BitVec::new();
    assert!(bv.is_empty());
    bv.push(true);
    bv.push(false);
    bv.push(true);
    assert_eq!(bv.len(), 3);
    assert_eq!(bv.get(0), Some(true));
    assert_eq!(bv.get(1), Some(false));
    assert_eq!(bv.get(2), Some(true));
    assert_eq!(bv.get(3), None);
    assert_eq!(bv.pop(), Some(true));
    assert_eq!(bv.pop(), Some(false));
    assert_eq!(bv.pop(), Some(true));
    assert_eq!(bv.pop(), None);
    assert!(bv.is_empty());
}

#[test]
fn set_changes_one_bit() {
    let mut bv = BitVec::from_elem(5, false);
    bv.set(3, true);
    assert_eq!(bv.get(3), Some(true));
    assert_eq!(bv.get(2), Some(false));
    assert_eq!(bv.get(4), Some(false));
}

#[test]
fn from_bytes_bit_order() {
    let bv = BitVec::from_bytes(&[0b10100000, 0b00010010]);
    assert!(bv.eq_vec(&[
        true, false, true, false, false, false, false, false, false, false, false, true, false,
        false, true, false
    ]));
}

#[test]
fn to_bytes_padding() {
    let mut bv = BitVec::from_elem(3, true);
    bv.set(1, false);
    assert_eq!(bv.to_bytes(), [0b10100000]);

    let mut bv = BitVec::from_elem(9, false);
    bv.set(2, true);
    bv.set(8, true);
    assert_eq!(bv.to_bytes(), [0b00100000, 0b10000000]);
}

#[test]
fn byte_round_trip() {
    for chunk in [
        vec![],
        vec![0u8],
        vec![255u8],
        vec![1, 2, 3, 4, 5],
        vec![0xAA, 0x55, 0x0F, 0xF0],
    ] {
        assert_eq!(BitVec::from_bytes(&chunk).to_bytes(), chunk);
    }
}

#[test]
fn boolean_algebra() {
    let a = 0b01100100;
    let b = 0b01011010;

    let mut bv = BitVec::from_bytes(&[a]);
    assert!(bv.union(&BitVec::from_bytes(&[b])));
    assert_eq!(bv, BitVec::from_bytes(&[0b01111110]));

    let mut bv = BitVec::from_bytes(&[a]);
    assert!(bv.intersect(&BitVec::from_bytes(&[b])));
    assert_eq!(bv, BitVec::from_bytes(&[0b01000000]));

    let mut bv = BitVec::from_bytes(&[a]);
    assert!(bv.difference(&BitVec::from_bytes(&[b])));
    assert_eq!(bv, BitVec::from_bytes(&[0b00100100]));

    let mut bv = BitVec::from_bytes(&[b]);
    assert!(bv.difference(&BitVec::from_bytes(&[a])));
    assert_eq!(bv, BitVec::from_bytes(&[0b00011010]));

    // a buffer is unchanged by a union with itself
    let mut bv = BitVec::from_bytes(&[a]);
    let same = BitVec::from_bytes(&[a]);
    assert!(!bv.union(&same));
    assert_eq!(bv, same);
}

#[test]
fn de_morgan_on_bytes() {
    // !(a | b) == !a & !b, checked bit for bit through the public API
    let a = 0b01100100;
    let b = 0b01011010;

    let mut lhs = BitVec::from_bytes(&[a]);
    lhs.union(&BitVec::from_bytes(&[b]));
    lhs.negate();

    let mut rhs = BitVec::from_bytes(&[a]);
    rhs.negate();
    let mut nb = BitVec::from_bytes(&[b]);
    nb.negate();
    rhs.intersect(&nb);

    assert_eq!(lhs, rhs);
}

#[test]
fn all_none_any() {
    let mut bv = BitVec::from_elem(5, true);
    assert!(bv.all());
    assert!(bv.any());
    assert!(!bv.none());
    bv.set(1, false);
    assert!(!bv.all());
    assert!(bv.any());
    let bv = BitVec::from_elem(10, false);
    assert!(bv.none());
    assert!(!bv.any());
    // vacuously true on the empty buffer
    let bv = BitVec::new();
    assert!(bv.all());
    assert!(bv.none());
    // a partial last word with every valid bit set
    let bv = BitVec::from_elem(33, true);
    assert!(bv.all());
}

#[test]
fn negate_set_all_clear() {
    let mut bv = BitVec::from_bytes(&[0b01100000]);
    bv.negate();
    assert_eq!(bv, BitVec::from_bytes(&[0b10011111]));
    bv.set_all();
    assert_eq!(bv, BitVec::from_bytes(&[0b11111111]));
    bv.clear();
    assert_eq!(bv, BitVec::from_bytes(&[0b00000000]));
}

#[test]
fn append_moves_bits() {
    let mut a = BitVec::from_bytes(&[0b10000000]);
    let mut b = BitVec::from_bytes(&[0b01100001]);

    a.append(&mut b);

    assert_eq!(a.len(), 16);
    assert_eq!(b.len(), 0);
    assert!(a.eq_vec(&[
        true, false, false, false, false, false, false, false, false, true, true, false, false,
        false, false, true
    ]));
}

#[test]
fn append_unaligned() {
    let mut a = BitVec::from_elem(3, true);
    let mut b = BitVec::from_bytes(&[0b01100001, 0b10010010, 0b11110000, 0b00001111, 0b10101010]);
    let expect_tail = b.clone();
    a.append(&mut b);
    assert_eq!(a.len(), 43);
    assert_eq!(b.len(), 0);
    for i in 0..3 {
        assert_eq!(a.get(i), Some(true));
    }
    for i in 0..40 {
        assert_eq!(a.get(3 + i), expect_tail.get(i));
    }
}

#[test]
fn split_off_at_bit() {
    let mut a = BitVec::new();
    a.push(true);
    a.push(false);
    a.push(false);
    a.push(true);

    let b = a.split_off(2);

    assert_eq!(a.len(), 2);
    assert_eq!(b.len(), 2);
    assert!(a.eq_vec(&[true, false]));
    assert!(b.eq_vec(&[false, true]));
}

#[test]
fn split_off_unaligned_words() {
    let orig = BitVec::from_bytes(&[0b01100001, 0b10010010, 0b11110000, 0b00001111, 0b10101010]);
    let mut a = orig.clone();
    let b = a.split_off(13);
    assert_eq!(a.len(), 13);
    assert_eq!(b.len(), 27);
    for i in 0..13 {
        assert_eq!(a.get(i), orig.get(i));
    }
    for i in 0..27 {
        assert_eq!(b.get(i), orig.get(13 + i));
    }
    // a word-boundary split moves whole words
    let mut a = orig.clone();
    let b = a.split_off(32);
    assert_eq!(a.len(), 32);
    assert_eq!(b.len(), 8);
    for i in 0..8 {
        assert_eq!(b.get(i), orig.get(32 + i));
    }
}

#[test]
fn grow_fills_new_bits() {
    let mut bv = BitVec::from_bytes(&[0b01001011]);
    bv.grow(2, true);
    assert_eq!(bv.len(), 10);
    assert_eq!(bv.to_bytes(), [0b01001011, 0b11000000]);
    bv.grow(40, false);
    assert_eq!(bv.len(), 50);
    assert_eq!(bv.get(10), Some(false));
    assert_eq!(bv.get(49), Some(false));
    assert_eq!(bv.get(9), Some(true));
}

#[test]
fn truncate_drops_tail() {
    let mut bv = BitVec::from_bytes(&[0b01001011]);
    bv.truncate(2);
    assert!(bv.eq_vec(&[false, true]));
    // truncating to a longer length changes nothing
    bv.truncate(10);
    assert_eq!(bv.len(), 2);
}

#[test]
fn from_elem_and_from_fn() {
    let bv = BitVec::from_elem(10, false);
    assert_eq!(bv.len(), 10);
    for i in 0..10 {
        assert_eq!(bv.get(i), Some(false));
    }
    let bv = BitVec::from_fn(5, |i| i % 2 == 0);
    assert!(bv.eq_vec(&[true, false, true, false, true]));
}

#[test]
fn iter_both_directions() {
    let bv = BitVec::from_bytes(&[0b01110100]);
    let mut it = bv.iter();
    let mut forward = Vec::new();
    while let Some(b) = it.next() {
        forward.push(b);
    }
    assert_eq!(
        forward,
        vec![false, true, true, true, false, true, false, false]
    );
    // restartable: a fresh cursor runs again, backward
    let mut it = bv.iter();
    let mut backward = Vec::new();
    while let Some(b) = it.next_back() {
        backward.push(b);
    }
    backward.reverse();
    assert_eq!(forward, backward);
}

#[test]
fn capacity_and_reserve() {
    let mut bv = BitVec::from_elem(3, false);
    bv.reserve(10);
    assert_eq!(bv.len(), 3);
    assert!(bv.capacity() >= 13);
    let mut bv = BitVec::from_elem(40, true);
    assert!(bv.capacity() >= 40);
    bv.reserve_exact(100);
    assert_eq!(bv.len(), 40);
    assert_eq!(bv.to_bytes(), vec![255, 255, 255, 255, 255]);
    let bv = BitVec::with_capacity(100);
    assert_eq!(bv.len(), 0);
}

#[test]
fn equality_and_clone() {
    let a = BitVec::from_bytes(&[0b10100000]);
    let b = BitVec::from_bytes(&[0b10100000]);
    let c = BitVec::from_bytes(&[0b10100001]);
    assert!(a == b);
    assert!(a != c);
    let d = a.clone();
    assert!(d == a);
    let e = BitVec::default();
    assert!(e == BitVec::new());
}
