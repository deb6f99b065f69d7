use crdts::errors::Error;
use crdts::vclock::VClock;

fn clock_from(pairs: &[(u8, u64)]) -> VClock<u8> {
    VClock::from_iter(pairs.to_vec())
}

#[test]
fn test_subtract() {
    let mut a: VClock<u8> = clock_from(&[(1, 4), (2, 3), (5, 9)]);
    let b: VClock<u8> = clock_from(&[(1, 5), (2, 3), (5, 8)]);
    let expected: VClock<u8> = clock_from(&[(5, 9)]);

    a.subtract(&b);

    assert_eq!(a, expected);
}

#[test]
fn test_merge() {
    let mut a: VClock<u8> = clock_from(&[(1, 1), (2, 2), (4, 4)]);
    let b: VClock<u8> = clock_from(&[(3, 3), (4, 3)]);
    a.merge(&b);

    let c: VClock<u8> = clock_from(&[(1, 1), (2, 2), (3, 3), (4, 4)]);
    assert_eq!(a, c);
}

#[test]
fn test_merge_less_left() {
    let (mut a, mut b) = (VClock::new(), VClock::new());
    a.witness(5u8, 5).unwrap();

    b.witness(6u8, 6).unwrap();
    b.witness(7u8, 7).unwrap();

    a.merge(&b);
    assert_eq!(a.get(&5), 5);
    assert_eq!(a.get(&6), 6);
    assert_eq!(a.get(&7), 7);
}

#[test]
fn test_merge_less_right() {
    let (mut a, mut b) = (VClock::new(), VClock::new());
    a.witness(6u8, 6).unwrap();
    a.witness(7u8, 7).unwrap();

    b.witness(5u8, 5).unwrap();

    a.merge(&b);
    assert_eq!(a.get(&5), 5);
    assert_eq!(a.get(&6), 6);
    assert_eq!(a.get(&7), 7);
}

#[test]
fn test_merge_same_id() {
    let (mut a, mut b) = (VClock::new(), VClock::new());
    a.witness(1u8, 1).unwrap();
    a.witness(2u8, 1).unwrap();

    b.witness(1u8, 1).unwrap();
    b.witness(3u8, 1).unwrap();

    a.merge(&b);
    assert_eq!(a.get(&1), 1);
    assert_eq!(a.get(&2), 1);
    assert_eq!(a.get(&3), 1);
}

#[test]
fn test_vclock_ordering() {
    assert_eq!(VClock::<i8>::new(), VClock::new());

    let (mut a, mut b) = (VClock::new(), VClock::new());
    a.witness("A".to_string(), 1).unwrap();
    a.witness("A".to_string(), 2).unwrap();
    assert!(a.witness("A".to_string(), 0).is_err());
    b.witness("A".to_string(), 1).unwrap();

    // a {A:2}
    // b {A:1}
    // expect: a dominates
    assert!(a > b);
    assert!(b < a);
    assert!(a != b);

    b.witness("A".to_string(), 3).unwrap();
    // a {A:2}
    // b {A:3}
    // expect: b dominates
    assert!(b > a);
    assert!(a < b);
    assert!(a != b);

    a.witness("B".to_string(), 1).unwrap();
    // a {A:2, B:1}
    // b {A:3}
    // expect: concurrent
    assert!(a != b);
    assert!(!(a > b));
    assert!(!(b > a));

    a.witness("A".to_string(), 3).unwrap();
    // a {A:3, B:1}
    // b {A:3}
    // expect: a dominates
    assert!(a > b);
    assert!(b < a);
    assert!(a != b);

    b.witness("B".to_string(), 2).unwrap();
    // a {A:3, B:1}
    // b {A:3, B:2}
    // expect: b dominates
    assert!(b > a);
    assert!(a < b);
    assert!(a != b);

    a.witness("B".to_string(), 2).unwrap();
    // a {A:3, B:2}
    // b {A:3, B:2}
    // expect: equal
    assert!(!(b > a));
    assert!(!(a > b));
    assert_eq!(a, b);
}

#[test]
fn test_witness_conflicting_dot() {
    let mut a: VClock<u64> = VClock::new();
    a.witness(7, 2).unwrap();
    assert_eq!(a.witness(7, 1), Err(Error::ConflictingDot));
    assert_eq!(a.witness(7, 2), Err(Error::ConflictingDot));
    assert_eq!(a.get(&7), 2);

    let mut b: VClock<u64> = VClock::new();
    b.witness(7, 1).unwrap();
    assert!(a > b);
}

#[test]
fn test_merge_commutative_concrete() {
    let a: VClock<u8> = clock_from(&[(1, 4), (3, 2)]);
    let b: VClock<u8> = clock_from(&[(1, 1), (2, 9)]);
    let mut ab = a.clone();
    ab.merge(&b);
    let mut ba = b.clone();
    ba.merge(&a);
    assert_eq!(ab, ba);
    assert_eq!(ab, clock_from(&[(1, 4), (2, 9), (3, 2)]));
}

#[test]
fn test_merge_associative_idempotent_concrete() {
    let a: VClock<u8> = clock_from(&[(1, 4)]);
    let b: VClock<u8> = clock_from(&[(2, 5)]);
    let c: VClock<u8> = clock_from(&[(1, 6), (3, 1)]);

    let mut ab_c = a.clone();
    ab_c.merge(&b);
    ab_c.merge(&c);

    let mut bc = b.clone();
    bc.merge(&c);
    let mut a_bc = a.clone();
    a_bc.merge(&bc);

    assert_eq!(ab_c, a_bc);

    let mut aa = a.clone();
    aa.merge(&a);
    assert_eq!(aa, a);
}

#[test]
fn test_merge_dominates_both() {
    let a: VClock<u8> = clock_from(&[(1, 4), (3, 2)]);
    let b: VClock<u8> = clock_from(&[(1, 1), (2, 9)]);
    let mut m = a.clone();
    m.merge(&b);
    assert!(m >= a);
    assert!(m >= b);
}

#[test]
fn test_glb_below_and_truncate() {
    let (mut a, mut b) = (VClock::new(), VClock::new());
    a.witness("A".to_string(), 3).unwrap();
    a.witness("B".to_string(), 6).unwrap();
    b.witness("A".to_string(), 2).unwrap();

    let glb = VClock::glb(&a, &b);

    assert_eq!(glb.get(&"A".to_string()), 2);
    assert_eq!(glb.get(&"B".to_string()), 0);
    assert!(a >= glb);
    assert!(b >= glb);

    // truncating a clock against itself is a no-op
    let mut c = VClock::new();
    c.witness(23u64, 6).unwrap();
    c.witness(89u64, 14).unwrap();
    let c2 = c.clone();
    c.truncate(&c2);
    assert_eq!(c, c2);

    c.witness(43, 1).unwrap();
    assert_eq!(c.get(&43), 1);
    c.truncate(&c2);
    assert_eq!(c.get(&43), 0);
}

#[test]
fn test_subtract_self_and_empty() {
    let a: VClock<u8> = clock_from(&[(1, 4), (2, 3), (5, 9)]);

    let mut self_subbed = a.clone();
    self_subbed.subtract(&a);
    assert_eq!(self_subbed, VClock::new());
    assert!(self_subbed.is_empty());

    let mut empty_subbed = a.clone();
    empty_subbed.subtract(&VClock::new());
    assert_eq!(empty_subbed, a);
}

#[test]
fn test_dominating_vclock() {
    let (mut a, mut b) = (VClock::new(), VClock::new());
    a.witness("A".to_string(), 3).unwrap();
    a.witness("B".to_string(), 2).unwrap();
    a.witness("D".to_string(), 14).unwrap();
    a.witness("G".to_string(), 22).unwrap();

    b.witness("A".to_string(), 4).unwrap();
    b.witness("B".to_string(), 1).unwrap();
    b.witness("C".to_string(), 1).unwrap();
    b.witness("D".to_string(), 14).unwrap();
    b.witness("E".to_string(), 5).unwrap();
    b.witness("F".to_string(), 2).unwrap();

    let dom = a.dominating_vclock(&b);
    assert_eq!(dom.get(&"B".to_string()), 2);
    assert_eq!(dom.get(&"G".to_string()), 22);
    assert_eq!(dom.get(&"A".to_string()), 0);
    assert_eq!(dom.get(&"D".to_string()), 0);
}

#[test]
fn test_intersection_and_concurrent() {
    let a: VClock<u8> = clock_from(&[(1, 4), (2, 3), (5, 9)]);
    let b: VClock<u8> = clock_from(&[(1, 4), (2, 7), (6, 1)]);

    let common = a.intersection(&b);
    assert_eq!(common.get(&1), 4);
    assert_eq!(common.get(&2), 0);
    assert_eq!(common.get(&5), 0);

    assert!(a.concurrent(&b));

    let dots = a.iter();
    assert_eq!(dots.len(), 3);
    assert_eq!(dots[0].actor, 1);
    assert_eq!(dots[0].counter, 4);
    assert_eq!(dots[2].actor, 5);
    assert_eq!(dots[2].counter, 9);

    assert!(a.contains_descendent_element(&1, &4));
    assert!(!a.contains_descendent_element(&1, &5));
    assert!(!a.contains_descendent_element(&6, &1));
}

#[test]
fn test_increment() {
    let mut a: VClock<u8> = clock_from(&[(1, 4)]);
    assert_eq!(a.increment(1), 5);
    assert_eq!(a.increment(2), 1);
    assert_eq!(a.get(&1), 5);
    assert_eq!(a.get(&2), 1);
}
