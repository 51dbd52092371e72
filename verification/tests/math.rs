use leben_regex::math::{BitMatrix, BitVector, NfaVector};

fn matrix(rows: usize, cols: usize, set: &[(usize, usize)]) -> BitMatrix {
    let mut m = BitMatrix::new(rows, cols);
    for &(i, j) in set {
        m.set(i, j, true);
    }
    m
}

fn bits(m: &BitMatrix) -> Vec<bool> {
    m.enumerate_iter().into_iter().map(|(_, v)| v).collect()
}

#[test]
fn matrix_starts_zeroed() {
    let m = BitMatrix::new(2, 3);
    assert_eq!(m.size_i(), 2);
    assert_eq!(m.size_j(), 3);
    assert_eq!(bits(&m), vec![false; 6]);
    assert_eq!(BitMatrix::new(0, 5).enumerate_iter(), vec![]);
}

#[test]
fn matrix_set_get_reset() {
    let mut m = BitMatrix::new(2, 3);
    m.set(1, 2, true);
    m.set(0, 1, true);
    assert!(m.get(1, 2));
    assert!(m.get(0, 1));
    assert!(!m.get(1, 1));
    assert!(!m.get(0, 2));
    m.set(1, 2, false);
    assert!(!m.get(1, 2));
    m.reset();
    assert_eq!(bits(&m), vec![false; 6]);
}

#[test]
fn matrix_enumerates_row_major() {
    let m = matrix(2, 2, &[(0, 1)]);
    assert_eq!(
        m.enumerate_iter(),
        vec![((0, 0), false), ((0, 1), true), ((1, 0), false), ((1, 1), false)]
    );
}

#[test]
fn matrix_add_is_elementwise_or() {
    let a = matrix(2, 2, &[(0, 0), (1, 1)]);
    let b = matrix(2, 2, &[(0, 0), (0, 1)]);
    let mut c = matrix(2, 2, &[(1, 0)]);
    BitMatrix::add(&a, &b, &mut c);
    assert_eq!(bits(&c), vec![true, true, false, true]);
}

#[test]
fn matrix_mult_is_boolean_product() {
    // a is 2 x 3, b is 3 x 2
    let a = matrix(2, 3, &[(0, 0), (0, 2), (1, 1)]);
    let b = matrix(3, 2, &[(0, 1), (1, 0), (2, 1)]);
    let mut c = matrix(2, 2, &[(0, 0), (1, 1)]);
    BitMatrix::mult(&a, &b, &mut c);
    assert_eq!(bits(&c), vec![false, true, true, false]);
    let clone = c.clone();
    assert_eq!(bits(&clone), bits(&c));
}

#[test]
fn vector_set_get_reset() {
    let mut v = BitVector::new(3);
    assert_eq!(v.size(), 3);
    assert_eq!(v.enumerate_iter(), vec![(0, false), (1, false), (2, false)]);
    v.set(1, true);
    assert!(v.get(1));
    assert!(!v.get(0));
    assert_eq!(v.clone().enumerate_iter(), vec![(0, false), (1, true), (2, false)]);
    v.reset();
    assert_eq!(v.enumerate_iter(), vec![(0, false), (1, false), (2, false)]);
}

#[test]
fn vector_add_mult_dot() {
    let mut a = BitVector::new(3);
    a.set(0, true);
    let mut b = BitVector::new(3);
    b.set(2, true);
    let mut c = BitVector::new(3);
    BitVector::add(&a, &b, &mut c);
    assert_eq!(c.enumerate_iter(), vec![(0, true), (1, false), (2, true)]);
    assert!(!BitVector::dot(&a, &b));
    assert!(BitVector::dot(&a, &c));

    // rows are targets, columns are sources
    let m = matrix(2, 3, &[(0, 1), (1, 2)]);
    let mut out = BitVector::new(2);
    out.set(0, true);
    BitVector::mult(&m, &b, &mut out);
    assert_eq!(out.enumerate_iter(), vec![(0, false), (1, true)]);
}

#[test]
fn offsets_set_get_reset() {
    let mut v = NfaVector::new(3);
    assert_eq!(v.size(), 3);
    assert_eq!(v.enumerate_iter(), vec![(0, None), (1, None), (2, None)]);
    v.set(2, Some(7));
    assert_eq!(v.get(2), Some(7));
    assert_eq!(v.get(0), None);
    assert_eq!(v.clone().get(2), Some(7));
    v.reset();
    assert_eq!(v.enumerate_iter(), vec![(0, None), (1, None), (2, None)]);
}

#[test]
fn offsets_mult_is_gated_minimum() {
    let m = matrix(3, 3, &[(0, 0), (0, 1), (0, 2), (1, 1), (2, 0)]);
    let mut v = NfaVector::new(3);
    v.set(0, Some(5));
    v.set(2, Some(3));
    let mut out = NfaVector::new(3);
    out.set(1, Some(9));
    NfaVector::mult(&m, &v, &mut out);
    assert_eq!(out.enumerate_iter(), vec![(0, Some(3)), (1, None), (2, Some(5))]);
}

#[test]
fn offsets_dot_is_gated_minimum() {
    let mut v = NfaVector::new(4);
    v.set(0, Some(1));
    v.set(1, Some(4));
    v.set(3, Some(2));
    let mut gate = BitVector::new(4);
    assert_eq!(NfaVector::dot(&v, &gate), None);
    gate.set(1, true);
    gate.set(2, true);
    assert_eq!(NfaVector::dot(&v, &gate), Some(4));
    gate.set(3, true);
    assert_eq!(NfaVector::dot(&v, &gate), Some(2));
}

#[test]
fn visiting_gives_each_element_a_new_value() {
    let mut v = BitVector::new(4);
    v.set(1, true);
    v.enumerate_iter_mut(|i, value| !value || i == 3);
    assert_eq!(v.enumerate_iter(), vec![(0, true), (1, false), (2, true), (3, true)]);

    let mut m = matrix(2, 2, &[(0, 1)]);
    m.enumerate_iter_mut(|(i, j), value| value || i == j);
    assert_eq!(bits(&m), vec![true, true, false, true]);

    let mut offsets = NfaVector::new(3);
    offsets.set(2, Some(4));
    offsets.enumerate_iter_mut(|i, value| value.map(|x| x + i).or(Some(i)));
    assert_eq!(offsets.enumerate_iter(), vec![(0, Some(0)), (1, Some(1)), (2, Some(6))]);
}
