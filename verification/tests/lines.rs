use station_stats::{make_key, process_chunk, AggregationTable, Key, Record, ScanError};

fn line_shape(r: &Record) -> (i32, i32, u64, i128) {
    (r.min(), r.max(), r.count(), r.sum())
}

fn line_entries(t: &AggregationTable) -> Vec<(Key, (i32, i32, u64, i128))> {
    let mut out: Vec<(Key, (i32, i32, u64, i128))> =
        t.entries().iter().map(|(k, r)| (*k, line_shape(r))).collect();
    out.sort();
    out
}

#[test]
fn empty_buffer_gives_empty_table() {
    let t = process_chunk(b"").ok().unwrap();
    assert_eq!(t.len(), 0);
}

#[test]
fn single_line() {
    let t = process_chunk(b"Oslo;12.3\n").ok().unwrap();
    assert_eq!(line_entries(&t), vec![(make_key(b"Oslo"), (123, 123, 1, 123))]);
}

#[test]
fn one_key_three_values() {
    let t = process_chunk(b"k;1.0\nk;2.0\nk;3.0\n").ok().unwrap();
    let r = t.get(&make_key(b"k")).unwrap();
    assert_eq!(r.count(), 3);
    assert_eq!(r.sum(), 60);
    assert_eq!(r.min(), 10);
    assert_eq!(r.max(), 30);
    assert_eq!(r.sum() as f64 / 10.0 / r.count() as f64, 2.0);
    assert_eq!(t.len(), 1);
}

#[test]
fn several_keys() {
    let t = process_chunk(b"Oslo;-1.5\nRome;20.0\nOslo;3.5\nLima;18.2\nRome;-0.1\n").ok().unwrap();
    assert_eq!(
        line_entries(&t),
        vec![
            (make_key(b"Lima"), (182, 182, 1, 182)),
            (make_key(b"Oslo"), (-15, 35, 2, 20)),
            (make_key(b"Rome"), (-1, 200, 2, 199)),
        ]
    );
}

#[test]
fn final_line_without_terminator_is_counted() {
    let t = process_chunk(b"a;1.0\nb;2.0").ok().unwrap();
    assert_eq!(
        line_entries(&t),
        vec![(make_key(b"a"), (10, 10, 1, 10)), (make_key(b"b"), (20, 20, 1, 20))]
    );
    let only = process_chunk(b"a;7.5").ok().unwrap();
    assert_eq!(line_entries(&only), vec![(make_key(b"a"), (75, 75, 1, 75))]);
}

#[test]
fn zero_fill_behind_the_last_terminator_is_no_line() {
    let t = process_chunk(b"a;1.0\n\0\0\0\0").ok().unwrap();
    assert_eq!(t.len(), 1);
    let mut key = [0u8; 32];
    key[0] = b'a';
    assert_eq!(line_entries(&t), vec![(key, (10, 10, 1, 10))]);
    assert_eq!(t.get(&key).unwrap().count(), 1);
    let one = process_chunk(b"a;1.0\n\0").ok().unwrap();
    assert_eq!(line_entries(&one), vec![(key, (10, 10, 1, 10))]);
}

#[test]
fn zero_fill_behind_a_last_line_without_terminator() {
    let t = process_chunk(b"a;1.0\nb;2.0\0\0\0").ok().unwrap();
    assert_eq!(
        line_entries(&t),
        vec![(make_key(b"a"), (10, 10, 1, 10)), (make_key(b"b"), (20, 20, 1, 20))]
    );
    let only = process_chunk(b"a;7.5\0").ok().unwrap();
    assert_eq!(line_entries(&only), vec![(make_key(b"a"), (75, 75, 1, 75))]);
}

#[test]
fn buffer_of_fill_alone_gives_empty_table() {
    assert_eq!(process_chunk(b"\0").ok().unwrap().len(), 0);
    assert_eq!(process_chunk(&[0u8; 4096]).ok().unwrap().len(), 0);
}

#[test]
fn what_follows_the_fill_is_no_text() {
    let t = process_chunk(b"a;1.0\n\0\0b;2.0").ok().unwrap();
    assert_eq!(line_entries(&t), vec![(make_key(b"a"), (10, 10, 1, 10))]);
}

#[test]
fn zero_byte_before_the_last_terminator_is_a_byte_of_its_line() {
    let t = process_chunk(b"a\0b;1.0\nc;2.0\n").ok().unwrap();
    assert_eq!(
        line_entries(&t),
        vec![(make_key(b"a\0b"), (10, 10, 1, 10)), (make_key(b"c"), (20, 20, 1, 20))]
    );
    assert!(matches!(process_chunk(b"a;1.0\0\nc;2.0\n"), Err(ScanError::MalformedValue)));
    assert!(matches!(process_chunk(b"\0\0\0\0\na;1.0\n"), Err(ScanError::MissingDelimiter)));
}

#[test]
fn last_line_cut_by_fill_is_held_to_the_rules() {
    assert!(matches!(process_chunk(b"a;1.0\nb\0;2.0"), Err(ScanError::MissingDelimiter)));
    assert!(matches!(process_chunk(b"a;1.0\nb;\0\0"), Err(ScanError::MalformedValue)));
    let t = process_chunk(b"a;1.0\nb;2.\x005").ok().unwrap();
    assert_eq!(line_shape(&t.get(&make_key(b"b")).unwrap()), (20, 20, 1, 20));
}

#[test]
fn buffer_ending_on_terminator_has_no_extra_line() {
    let with = process_chunk(b"a;1.0\na;2.0\n").ok().unwrap();
    let without = process_chunk(b"a;1.0\na;2.0").ok().unwrap();
    assert_eq!(line_entries(&with), line_entries(&without));
    assert_eq!(with.get(&make_key(b"a")).unwrap().count(), 2);
}

#[test]
fn empty_key_is_a_key() {
    let t = process_chunk(b";4.0\n;6.0\n").ok().unwrap();
    assert_eq!(line_entries(&t), vec![([0u8; 32], (40, 60, 2, 100))]);
}

#[test]
fn long_keys_are_cut_and_share_an_aggregate() {
    let text = b"0123456789012345678901234567890123456789;1.0\n01234567890123456789012345678901zz;2.0\n";
    let t = process_chunk(text).ok().unwrap();
    assert_eq!(t.len(), 1);
    let r = t.get(&make_key(b"01234567890123456789012345678901")).unwrap();
    assert_eq!(line_shape(&r), (10, 20, 2, 30));
}

#[test]
fn key_may_hold_any_other_byte() {
    let t = process_chunk("Zürich-1 .x;5.5\n".as_bytes()).ok().unwrap();
    assert!(t.get(&make_key("Zürich-1 .x".as_bytes())).is_some());
}

#[test]
fn line_without_delimiter_is_refused() {
    assert!(matches!(process_chunk(b"Oslo 12.3\n"), Err(ScanError::MissingDelimiter)));
    assert!(matches!(process_chunk(b"a;1.0\nb2.0\nc;3.0\n"), Err(ScanError::MissingDelimiter)));
    assert!(matches!(process_chunk(b"a;1.0\nb"), Err(ScanError::MissingDelimiter)));
}

#[test]
fn empty_line_is_refused() {
    assert!(matches!(process_chunk(b"\n"), Err(ScanError::MissingDelimiter)));
    assert!(matches!(process_chunk(b"a;1.0\n\nb;2.0\n"), Err(ScanError::MissingDelimiter)));
}

#[test]
fn malformed_value_is_refused() {
    assert!(matches!(process_chunk(b"a;abc\n"), Err(ScanError::MalformedValue)));
    assert!(matches!(process_chunk(b"a;\n"), Err(ScanError::MalformedValue)));
    assert!(matches!(process_chunk(b"a;"), Err(ScanError::MalformedValue)));
    assert!(matches!(process_chunk(b"a;1.25\n"), Err(ScanError::MalformedValue)));
    assert!(matches!(process_chunk(b"a;1.0\r\n"), Err(ScanError::MalformedValue)));
    assert!(matches!(process_chunk(b"a;1.0\nb;2.0\nc;x"), Err(ScanError::MalformedValue)));
}

#[test]
fn second_delimiter_is_refused() {
    assert!(matches!(process_chunk(b"a;1.0;2.0\n"), Err(ScanError::MalformedValue)));
    assert!(matches!(process_chunk(b"a;b;1.0\n"), Err(ScanError::MalformedValue)));
    assert!(matches!(process_chunk(b"a;1.0;"), Err(ScanError::MalformedValue)));
}

#[test]
fn value_out_of_range_is_refused() {
    assert!(matches!(process_chunk(b"a;214748364.8\n"), Err(ScanError::MalformedValue)));
    let t = process_chunk(b"a;214748364.7\na;-214748364.8\n").ok().unwrap();
    assert_eq!(
        line_shape(&t.get(&make_key(b"a")).unwrap()),
        (i32::MIN, i32::MAX, 2, -1)
    );
}

#[test]
fn first_bad_line_decides_the_error() {
    assert!(matches!(process_chunk(b"a;x\nb\n"), Err(ScanError::MalformedValue)));
    assert!(matches!(process_chunk(b"b\na;x\n"), Err(ScanError::MissingDelimiter)));
}

#[test]
fn many_lines() {
    let mut text = Vec::new();
    let mut expected_sum: i128 = 0;
    for i in 0..5000 {
        let tenths: i32 = (i % 1999) - 999;
        expected_sum += tenths as i128;
        let sign = if tenths < 0 { "-" } else { "" };
        let line = format!("station{};{}{}.{}\n", i % 7, sign, tenths.abs() / 10, tenths.abs() % 10);
        text.extend_from_slice(line.as_bytes());
    }
    let t = process_chunk(&text).ok().unwrap();
    assert_eq!(t.len(), 7);
    let entries = t.entries();
    assert_eq!(entries.iter().map(|(_, r)| r.count()).sum::<u64>(), 5000);
    assert_eq!(entries.iter().map(|(_, r)| r.sum()).sum::<i128>(), expected_sum);
    assert_eq!(entries.iter().map(|(_, r)| r.min()).min(), Some(-999));
    assert_eq!(entries.iter().map(|(_, r)| r.max()).max(), Some(999));
}
