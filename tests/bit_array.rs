use lem_in::BitArray;

#[test]
fn new() {
    let bs = BitArray::new(10);
    assert_eq!(bs.len(), 10);
    assert_eq!(bs.byte_len(), 2);
}

#[test]
fn has() {
    let bs = BitArray::from_bytes(&[0b_1010_1110]);

    assert_eq!(bs.get(0), false);
    assert_eq!(bs.get(1), true);
    assert_eq!(bs.get(2), true);
    assert_eq!(bs.get(3), true);
    assert_eq!(bs.get(4), false);
    assert_eq!(bs.get(5), true);
    assert_eq!(bs.get(6), false);
    assert_eq!(bs.get(7), true);
}

#[test]
fn add() {
    let mut bs = BitArray::from_bytes(&[0b_1010_1110]);

    // Check does change
    assert_eq!(bs.get(0), false);
    bs.add(0);
    assert_eq!(bs.get(0), true);

    // Check doesn't change
    bs.add(0);
    assert_eq!(bs.get(1), true);
}

#[test]
fn rm() {
    let mut bs = BitArray::from_bytes(&[0b_1010_1110]);

    // Check doesn't change
    assert_eq!(bs.get(0), false);
    bs.rm(0);
    assert_eq!(bs.get(0), false);

    // Check does change
    assert_eq!(bs.get(1), true);
    bs.rm(1);
    assert_eq!(bs.get(1), false);
}

#[test]
fn new_is_empty_and_rounds_up() {
    let bs = BitArray::new(17);
    assert_eq!(bs.len(), 17);
    assert_eq!(bs.byte_len(), 3);
    for i in 0..17 {
        assert!(!bs.get(i));
    }
    assert_eq!(BitArray::new(0).byte_len(), 0);
    assert_eq!(BitArray::new(8).byte_len(), 1);
}

#[test]
fn set_and_conditional_updates() {
    let mut bs = BitArray::new(12);
    bs.set(9, true);
    assert!(bs.get(9));
    bs.set(9, false);
    assert!(!bs.get(9));
    bs.add_if(3, false);
    assert!(!bs.get(3));
    bs.add_if(3, true);
    assert!(bs.get(3));
    bs.rm_if(3, false);
    assert!(bs.get(3));
    bs.rm_if(3, true);
    assert!(!bs.get(3));
}

#[test]
fn bitor_takes_the_longer_length() {
    let mut a = BitArray::new(3);
    a.add(1);
    let mut b = BitArray::new(11);
    b.add(0);
    b.add(10);
    let c = a.bitor(&b);
    assert_eq!(c.len(), 11);
    assert!(c.get(0));
    assert!(c.get(1));
    assert!(!c.get(2));
    assert!(c.get(10));
    let d = b.bitor(&a);
    assert_eq!(d.len(), 11);
    assert!(d.get(1));
    assert!(d.get(10));
}
