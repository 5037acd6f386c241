use station_stats::{make_key, merge_all, AggregationTable, Key, Record, ScanError};

fn shape_of(r: &Record) -> (i32, i32, u64, i128) {
    (r.min(), r.max(), r.count(), r.sum())
}

fn sorted_entries(t: &AggregationTable) -> Vec<(Key, (i32, i32, u64, i128))> {
    let mut out: Vec<(Key, (i32, i32, u64, i128))> =
        t.entries().iter().map(|(k, r)| (*k, shape_of(r))).collect();
    out.sort();
    out
}

fn table_of(observations: &[(&str, i32)]) -> AggregationTable {
    let mut t = AggregationTable::new();
    for (name, value) in observations {
        assert!(t.accumulate(make_key(name.as_bytes()), *value).is_ok());
    }
    t
}

fn heavy_record(doublings: u32) -> Record {
    let mut r = Record::new(1);
    let mut done = 0;
    while done < doublings {
        let copy = r;
        r.merge(&copy);
        done += 1;
    }
    r
}

#[test]
fn new_table_is_empty() {
    let t = AggregationTable::new();
    assert_eq!(t.len(), 0);
    assert!(t.entries().is_empty());
    assert!(t.get(&make_key(b"Oslo")).is_none());
}

#[test]
fn key_is_padded_with_zero_bytes() {
    let key = make_key(b"Oslo");
    assert_eq!(&key[..4], b"Oslo");
    assert!(key[4..].iter().all(|b| *b == 0));
    assert_eq!(key.len(), station_stats::KEY_CAPACITY);
}

#[test]
fn empty_key_text_gives_zero_key() {
    assert_eq!(make_key(b""), [0u8; 32]);
}

#[test]
fn long_key_is_cut_to_capacity() {
    let long = b"0123456789012345678901234567890123456789";
    let key = make_key(long);
    assert_eq!(&key[..], &long[..32]);
    let exact = b"01234567890123456789012345678901";
    assert_eq!(&make_key(exact)[..], &exact[..]);
    assert_eq!(make_key(long), make_key(exact));
}

#[test]
fn accumulate_starts_and_updates() {
    let mut t = AggregationTable::new();
    let oslo = make_key(b"Oslo");
    assert!(t.accumulate(oslo, 25).is_ok());
    assert_eq!(shape_of(&t.get(&oslo).unwrap()), (25, 25, 1, 25));
    assert!(t.accumulate(oslo, -40).is_ok());
    assert!(t.accumulate(oslo, 100).is_ok());
    assert_eq!(shape_of(&t.get(&oslo).unwrap()), (-40, 100, 3, 85));
    assert_eq!(t.len(), 1);
}

#[test]
fn accumulate_keeps_keys_apart() {
    let t = table_of(&[("Oslo", 10), ("Rome", 200), ("Oslo", 30), ("Rome", 180), ("Lima", 5)]);
    assert_eq!(t.len(), 3);
    assert_eq!(shape_of(&t.get(&make_key(b"Oslo")).unwrap()), (10, 30, 2, 40));
    assert_eq!(shape_of(&t.get(&make_key(b"Rome")).unwrap()), (180, 200, 2, 380));
    assert_eq!(shape_of(&t.get(&make_key(b"Lima")).unwrap()), (5, 5, 1, 5));
    assert!(t.get(&make_key(b"Bonn")).is_none());
}

#[test]
fn entries_hold_each_key_once() {
    let t = table_of(&[("a", 1), ("b", 2), ("a", 3), ("c", 4), ("b", 5)]);
    let entries = sorted_entries(&t);
    assert_eq!(
        entries,
        vec![
            (make_key(b"a"), (1, 3, 2, 4)),
            (make_key(b"b"), (2, 5, 2, 7)),
            (make_key(b"c"), (4, 4, 1, 4)),
        ]
    );
}

#[test]
fn merge_record_starts_or_merges() {
    let mut t = AggregationTable::new();
    let key = make_key(b"k");
    let mut first = Record::new(5);
    first.observe(9);
    assert!(t.merge_record(key, first).is_ok());
    assert_eq!(shape_of(&t.get(&key).unwrap()), (5, 9, 2, 14));
    let mut second = Record::new(-1);
    second.observe(20);
    assert!(t.merge_record(key, second).is_ok());
    assert_eq!(shape_of(&t.get(&key).unwrap()), (-1, 20, 4, 33));
}

#[test]
fn merge_joins_disjoint_and_shared_keys() {
    let a = table_of(&[("x", 1), ("y", 10), ("x", 3)]);
    let b = table_of(&[("y", -10), ("z", 7)]);
    let merged = a.merge(b).ok().unwrap();
    assert_eq!(
        sorted_entries(&merged),
        vec![
            (make_key(b"x"), (1, 3, 2, 4)),
            (make_key(b"y"), (-10, 10, 2, 0)),
            (make_key(b"z"), (7, 7, 1, 7)),
        ]
    );
}

#[test]
fn merge_with_empty_table_changes_nothing() {
    let a = table_of(&[("x", 1), ("y", 10)]);
    let expected = sorted_entries(&a);
    let left = a.merge(AggregationTable::new()).ok().unwrap();
    assert_eq!(sorted_entries(&left), expected);
    let right = AggregationTable::new().merge(left).ok().unwrap();
    assert_eq!(sorted_entries(&right), expected);
}

#[test]
fn merge_is_commutative() {
    let ab = table_of(&[("x", 1), ("y", 10)]).merge(table_of(&[("y", 4), ("z", 2)])).ok().unwrap();
    let ba = table_of(&[("y", 4), ("z", 2)]).merge(table_of(&[("x", 1), ("y", 10)])).ok().unwrap();
    assert_eq!(sorted_entries(&ab), sorted_entries(&ba));
}

#[test]
fn merge_is_associative() {
    let a = || table_of(&[("x", 1), ("y", 10)]);
    let b = || table_of(&[("y", 4), ("z", 2)]);
    let c = || table_of(&[("x", -6), ("z", 9), ("w", 0)]);
    let left = a().merge(b()).ok().unwrap().merge(c()).ok().unwrap();
    let right = a().merge(b().merge(c()).ok().unwrap()).ok().unwrap();
    assert_eq!(sorted_entries(&left), sorted_entries(&right));
}

#[test]
fn merge_all_of_nothing_is_empty() {
    let merged = merge_all(Vec::new()).ok().unwrap();
    assert_eq!(merged.len(), 0);
}

#[test]
fn merge_all_of_one_table_is_that_table() {
    let merged = merge_all(vec![table_of(&[("x", 1), ("y", 10), ("x", 5)])]).ok().unwrap();
    assert_eq!(
        sorted_entries(&merged),
        vec![(make_key(b"x"), (1, 5, 2, 6)), (make_key(b"y"), (10, 10, 1, 10))]
    );
}

#[test]
fn merge_all_of_many_tables() {
    let merged = merge_all(vec![
        table_of(&[("x", 1)]),
        AggregationTable::new(),
        table_of(&[("x", 2), ("y", 3)]),
        table_of(&[("y", -3), ("x", 3)]),
    ])
    .ok()
    .unwrap();
    assert_eq!(
        sorted_entries(&merged),
        vec![(make_key(b"x"), (1, 3, 3, 6)), (make_key(b"y"), (-3, 3, 2, 0))]
    );
}

#[test]
fn grouping_and_order_do_not_matter() {
    let all = [("a", 5), ("b", -2), ("a", 7), ("c", 0), ("b", 11), ("a", -9), ("c", 3)];
    let one_pass = sorted_entries(&table_of(&all));
    let split = merge_all(vec![table_of(&all[..2]), table_of(&all[2..5]), table_of(&all[5..])])
        .ok()
        .unwrap();
    assert_eq!(sorted_entries(&split), one_pass);
    let reordered = merge_all(vec![table_of(&all[5..]), table_of(&all[..2]), table_of(&all[2..5])])
        .ok()
        .unwrap();
    assert_eq!(sorted_entries(&reordered), one_pass);
    let singles = merge_all(all.iter().rev().map(|o| table_of(&[*o])).collect()).ok().unwrap();
    assert_eq!(sorted_entries(&singles), one_pass);
    let shuffled = [all[3], all[6], all[0], all[5], all[1], all[4], all[2]];
    assert_eq!(sorted_entries(&table_of(&shuffled)), one_pass);
}

#[test]
fn single_key_sanity() {
    let t = table_of(&[("k", 10), ("k", 20), ("k", 30)]);
    let r = t.get(&make_key(b"k")).unwrap();
    assert_eq!(r.count(), 3);
    assert_eq!(r.sum(), 60);
    assert_eq!(r.min(), 10);
    assert_eq!(r.max(), 30);
    let mean = r.sum() as f64 / 10.0 / r.count() as f64;
    assert_eq!(mean, 2.0);
}

#[test]
fn accumulate_reports_count_overflow() {
    let key = make_key(b"k");
    let mut t = AggregationTable::new();
    let half = heavy_record(63);
    assert_eq!(half.count(), 1u64 << 63);
    assert!(t.merge_record(key, half).is_ok());
    let mut rest = heavy_record(62);
    let mut step = 61;
    loop {
        rest.merge(&heavy_record(step));
        if step == 0 {
            break;
        }
        step -= 1;
    }
    assert_eq!(rest.count(), (1u64 << 63) - 1);
    assert!(t.merge_record(key, rest).is_ok());
    assert_eq!(t.get(&key).unwrap().count(), u64::MAX);
    assert!(matches!(t.accumulate(key, 1), Err(ScanError::CountOverflow)));
    assert_eq!(t.get(&key).unwrap().count(), u64::MAX);
    assert!(t.accumulate(make_key(b"other"), 1).is_ok());
}

#[test]
fn merge_record_reports_count_overflow() {
    let key = make_key(b"k");
    let mut t = AggregationTable::new();
    assert!(t.merge_record(key, heavy_record(63)).is_ok());
    assert!(matches!(t.merge_record(key, heavy_record(63)), Err(ScanError::CountOverflow)));
    assert_eq!(t.get(&key).unwrap().count(), 1u64 << 63);
}

#[test]
fn merge_reports_count_overflow() {
    let key = make_key(b"k");
    let mut a = AggregationTable::new();
    assert!(a.merge_record(key, heavy_record(63)).is_ok());
    assert!(a.accumulate(make_key(b"a"), 1).is_ok());
    let mut b = AggregationTable::new();
    assert!(b.merge_record(key, heavy_record(63)).is_ok());
    assert!(b.accumulate(make_key(b"b"), 1).is_ok());
    assert!(matches!(a.merge(b), Err(ScanError::CountOverflow)));
}

#[test]
fn merge_all_reports_count_overflow() {
    let key = make_key(b"k");
    let mut tables = Vec::new();
    for _ in 0..2 {
        let mut t = AggregationTable::new();
        assert!(t.merge_record(key, heavy_record(63)).is_ok());
        tables.push(t);
    }
    tables.push(table_of(&[("k", 1)]));
    assert!(matches!(merge_all(tables), Err(ScanError::CountOverflow)));
}
