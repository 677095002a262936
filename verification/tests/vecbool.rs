use vecbool::CHUNK_SIZE;
use vecbool::VecBool;
use vecbool::round_trip;

fn simple_test(mut mask: VecBool) {
    assert_eq!(mask.get(0), None);

    mask.push(true);
    assert_eq!(mask.get(0), Some(true));
    assert_eq!(mask.get(1), None);

    mask.push(false);
    assert_eq!(mask.get(0), Some(true));
    assert_eq!(mask.get(1), Some(false));
    assert_eq!(mask.get(2), None);

    mask.set(0, false);
    mask.set(1, true);
    assert_eq!(mask.iter(), vec![false, true]);

    assert_eq!(mask.pop(), Some(true));
    assert_eq!(mask.pop(), Some(false));
    assert_eq!(mask.pop(), None);
    assert_eq!(mask.iter(), vec![]);

    let size: usize = CHUNK_SIZE * 4;
    for i in 0..size {
        mask.push(i % 3 == 0);
    }

    let expected: Vec<bool> = (0..size).map(|i| i % 3 == 0).collect();
    assert_eq!(mask.iter(), expected);
}

#[test]
fn new() {
    let mask = VecBool::new();
    simple_test(mask);
}

#[test]
fn conversions() {
    let v1: Vec<bool> = vec![true, true, false, true, false, false, true, false, false, true];
    let v2 = VecBool::from_bools(v1.clone());
    let v3: Vec<bool> = v2.to_bools();

    assert_eq!(v1, v3);
}

#[test]
fn pop() {
    let v1: Vec<bool> = vec![
        true, true, false, true, false, false, true, false, false, true, false,
    ];
    let mut v2 = VecBool::from_bools(v1.clone());

    let result = v2.pop_bit().unwrap();
    assert_eq!(result, v1[v1.len() - 1]);

    let result = v2.pop_bit().unwrap();
    assert_eq!(result, v1[v1.len() - 2]);

    assert_eq!(9, v2.len());
    assert_eq!(v2.get_unchecked(7), v1[v1.len() - 3])
}

#[test]
fn with_capacity() {
    let mask = VecBool::with_capacity(CHUNK_SIZE * 4);
    simple_test(mask);
}

#[test]
fn with_len() {
    let len: usize = 16;
    let mask = VecBool::with_zeros(len);

    for i in 0..len {
        assert_eq!(mask.get(i), Some(false));
    }

    assert_eq!(mask.get(len), None);
}

#[test]
fn pushes_then_pop_exact() {
    let mut mask = VecBool::new();
    let values = vec![
        true, true, false, true, false, false, true, false, false, true,
    ];
    for v in 0..values.len() {
        mask.push(values[v]);
    }
    assert_eq!(mask.len(), 10);
    assert_eq!(mask.capacity(), 2 * CHUNK_SIZE);

    assert_eq!(mask.pop_bit(), Some(true));
    assert_eq!(mask.len(), 9);
    assert_eq!(mask.pop_bit(), Some(false));
    assert_eq!(mask.len(), 8);
    assert_eq!(mask.get(7), Some(false));
}

#[test]
fn capacity_growth_and_shrink() {
    let mut mask = VecBool::new();
    assert_eq!(mask.capacity(), 0);

    mask.push(true);
    assert_eq!(mask.capacity(), CHUNK_SIZE);

    for _ in 1..CHUNK_SIZE {
        mask.push(false);
    }
    assert_eq!(mask.capacity(), CHUNK_SIZE);

    mask.push(true);
    assert_eq!(mask.capacity(), 2 * CHUNK_SIZE);

    mask.pop();
    assert_eq!(mask.len(), CHUNK_SIZE);
    assert_eq!(mask.capacity(), CHUNK_SIZE);

    mask.pop();
    assert_eq!(mask.len(), CHUNK_SIZE - 1);
    assert_eq!(mask.capacity(), CHUNK_SIZE);
}

#[test]
fn set_out_of_range_fails() {
    let mut mask = VecBool::new();
    mask.push(true);
    mask.push(false);

    assert!(!mask.set(2, true));
    assert_eq!(mask.iter(), vec![true, false]);

    assert!(mask.set(1, true));
    assert_eq!(mask.iter(), vec![true, true]);
}

#[test]
fn pop_variants_agree() {
    let mut a = VecBool::new();
    let mut b = VecBool::new();

    assert_eq!(a.pop(), None);
    assert_eq!(b.pop_bit(), None);
    assert_eq!(a.len(), 0);
    assert_eq!(b.len(), 0);

    for v in [true, false, true] {
        a.push(v);
        b.push(v);
    }

    assert_eq!(a.pop(), b.pop_bit());
    assert_eq!(a.len(), b.len());
    assert_eq!(a.pop(), b.pop_bit());
    assert_eq!(a.len(), b.len());
}

#[test]
fn raw_chunks() {
    let packed = VecBool::from_bools(vec![true, false, true]);
    assert_eq!(packed.into_chunks(), vec![0b101u8]);

    let zeroed = VecBool::with_zeros(3);
    assert_eq!(zeroed.into_chunks(), vec![0u8]);
}

#[test]
fn stale_bits() {
    let mut lazy = VecBool::from_bools(vec![true, true]);
    lazy.pop();
    assert_eq!(lazy.into_chunks(), vec![0b11u8]);

    let mut exact = VecBool::from_bools(vec![true, true]);
    exact.pop_bit();
    assert_eq!(exact.into_chunks(), vec![0b01u8]);
}

#[test]
fn round_trip_bools() {
    let empty: Vec<bool> = vec![];
    assert_eq!(round_trip(empty.clone()), empty);

    let values = vec![false, true, true, false, true, false, false, true, true];
    assert_eq!(round_trip(values.clone()), values);
}

#[test]
fn set_unchecked_in_range() {
    let mut mask = VecBool::with_zeros(9);
    mask.set_unchecked(8, true);
    assert_eq!(mask.get_unchecked(8), true);
    assert_eq!(mask.get(7), Some(false));
}
