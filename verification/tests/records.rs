use station_stats::Record;

#[test]
fn new_record_holds_one_value() {
    let r = Record::new(7);
    assert_eq!(r.count(), 1);
    assert_eq!(r.sum(), 7);
    assert_eq!(r.min(), 7);
    assert_eq!(r.max(), 7);
}

#[test]
fn new_record_of_negative_value() {
    let r = Record::new(-999);
    assert_eq!((r.min(), r.max(), r.count(), r.sum()), (-999, -999, 1, -999));
}

#[test]
fn observe_updates_every_field() {
    let mut r = Record::new(10);
    r.observe(30);
    assert_eq!((r.min(), r.max(), r.count(), r.sum()), (10, 30, 2, 40));
    r.observe(-5);
    assert_eq!((r.min(), r.max(), r.count(), r.sum()), (-5, 30, 3, 35));
    r.observe(12);
    assert_eq!((r.min(), r.max(), r.count(), r.sum()), (-5, 30, 4, 47));
}

#[test]
fn merge_combines_two_records() {
    let mut a = Record::new(10);
    a.observe(20);
    let mut b = Record::new(-3);
    b.observe(50);
    b.observe(7);
    a.merge(&b);
    assert_eq!((a.min(), a.max(), a.count(), a.sum()), (-3, 50, 5, 84));
}

#[test]
fn merge_of_records_is_commutative() {
    let mut a = Record::new(10);
    a.observe(20);
    let mut b = Record::new(-3);
    b.observe(50);
    let mut ab = a;
    ab.merge(&b);
    let mut ba = b;
    ba.merge(&a);
    assert_eq!(ab, ba);
}

#[test]
fn merge_of_records_is_associative() {
    let a = Record::new(1);
    let b = Record::new(-8);
    let c = Record::new(40);
    let mut left = a;
    left.merge(&b);
    left.merge(&c);
    let mut bc = b;
    bc.merge(&c);
    let mut right = a;
    right.merge(&bc);
    assert_eq!(left, right);
    assert_eq!((left.min(), left.max(), left.count(), left.sum()), (-8, 40, 3, 33));
}

#[test]
fn sum_is_exact_beyond_32_bits() {
    let mut r = Record::new(i32::MAX);
    r.observe(i32::MAX);
    r.observe(i32::MAX);
    assert_eq!(r.sum(), 3 * (i32::MAX as i128));
    let mut low = Record::new(i32::MIN);
    low.observe(i32::MIN);
    assert_eq!(low.sum(), 2 * (i32::MIN as i128));
}

#[test]
fn sum_is_exact_beyond_64_bits() {
    let mut r = Record::new(i32::MAX);
    let mut doublings = 0;
    while doublings < 40 {
        let copy = r;
        r.merge(&copy);
        doublings += 1;
    }
    assert_eq!(r.count(), 1u64 << 40);
    assert_eq!(r.sum(), (i32::MAX as i128) << 40);
    assert_eq!(r.min(), i32::MAX);
    assert_eq!(r.max(), i32::MAX);
}
