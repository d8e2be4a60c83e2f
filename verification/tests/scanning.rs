use rs_1brc::order::{compare_names, NameOrder};
use rs_1brc::records::{find_from, next_record, record_name, record_value, scan_records, RecordSpan};

#[test]
fn find_from_gives_the_first_offset_at_or_after_the_start() {
    assert_eq!(find_from(b"a;b;c", 0, b';'), 1);
    assert_eq!(find_from(b"a;b;c", 1, b';'), 1);
    assert_eq!(find_from(b"a;b;c", 2, b';'), 3);
    assert_eq!(find_from(b"a;b;c", 4, b';'), 5);
    assert_eq!(find_from(b"a;b;c", 5, b';'), 5);
}

#[test]
fn record_spans_name_and_value() {
    let data = b"Tokyo;15.2\nLagos;30.1\n";
    let r = next_record(data, 0).unwrap();
    assert_eq!(
        r,
        RecordSpan { name_start: 0, name_end: 5, value_start: 6, value_end: 10, next: 11 }
    );
    assert_eq!(record_name(data, &r), b"Tokyo");
    assert_eq!(record_value(data, &r), b"15.2");
    let r = next_record(data, r.next).unwrap();
    assert_eq!(record_name(data, &r), b"Lagos");
    assert_eq!(record_value(data, &r), b"30.1");
    assert_eq!(r.next, data.len());
    assert_eq!(next_record(data, r.next), None);
}

#[test]
fn record_without_line_break_runs_to_the_end() {
    let data = b"Oslo;5.5";
    let r = next_record(data, 0).unwrap();
    assert_eq!(r, RecordSpan { name_start: 0, name_end: 4, value_start: 5, value_end: 8, next: 8 });
    assert_eq!(record_value(data, &r), b"5.5");
}

#[test]
fn no_separator_means_no_record() {
    assert_eq!(next_record(b"no separator here\n", 0), None);
    assert_eq!(next_record(b"", 0), None);
    assert!(scan_records(b"\n\n").is_empty());
}

#[test]
fn scan_finds_every_record_in_order() {
    let data = b"a;1\nbb;-2.5\nc;3";
    let spans = scan_records(data);
    assert_eq!(spans.len(), 3);
    let names: Vec<&[u8]> = spans.iter().map(|r| record_name(data, r)).collect();
    let values: Vec<&[u8]> = spans.iter().map(|r| record_value(data, r)).collect();
    assert_eq!(names, vec![&b"a"[..], &b"bb"[..], &b"c"[..]]);
    assert_eq!(values, vec![&b"1"[..], &b"-2.5"[..], &b"3"[..]]);
}

#[test]
fn empty_name_and_empty_value_are_records() {
    let data = b";\n";
    let spans = scan_records(data);
    assert_eq!(spans.len(), 1);
    assert_eq!(record_name(data, &spans[0]), b"");
    assert_eq!(record_value(data, &spans[0]), b"");
}

#[test]
fn names_are_ordered_byte_by_byte() {
    assert_eq!(compare_names(b"Lagos", b"Tokyo"), NameOrder::Before);
    assert_eq!(compare_names(b"Tokyo", b"Lagos"), NameOrder::After);
    assert_eq!(compare_names(b"Oslo", b"Oslo"), NameOrder::Same);
    assert_eq!(compare_names(b"Os", b"Oslo"), NameOrder::Before);
    assert_eq!(compare_names(b"Oslo", b"Os"), NameOrder::After);
    assert_eq!(compare_names(b"", b""), NameOrder::Same);
    assert_eq!(compare_names(b"", b"a"), NameOrder::Before);
    assert_eq!(compare_names(b"Z", b"a"), NameOrder::Before);
    assert_eq!(compare_names(&[0xC3, 0x89], b"z"), NameOrder::After);
}

#[test]
fn joined_chunks_hold_the_records_of_each() {
    let a = b"Tokyo;15.2\nLagos;30.1\n";
    let b = b"Oslo;5.5\nTokyo;18.4";
    let mut joined = a.to_vec();
    joined.extend_from_slice(b);
    let mut expected = scan_records(a);
    for r in scan_records(b) {
        expected.push(RecordSpan {
            name_start: r.name_start + a.len(),
            name_end: r.name_end + a.len(),
            value_start: r.value_start + a.len(),
            value_end: r.value_end + a.len(),
            next: r.next + a.len(),
        });
    }
    assert_eq!(scan_records(&joined), expected);
    assert_eq!(expected.len(), 4);
}
