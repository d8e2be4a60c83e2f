use rs_1brc::table::{Placement, StationTable, TableError};

#[test]
fn new_station_gets_the_next_slot() {
    let mut t = StationTable::new();
    assert_eq!(t.len(), 0);
    assert_eq!(t.observe(b"Tokyo"), Ok(Placement { slot: 0, fresh: true }));
    assert_eq!(t.observe(b"Lagos"), Ok(Placement { slot: 1, fresh: true }));
    assert_eq!(t.observe(b"Tokyo"), Ok(Placement { slot: 0, fresh: false }));
    assert_eq!(t.len(), 2);
    assert_eq!(t.name(0), b"Tokyo");
    assert_eq!(t.name(1), b"Lagos");
    assert_eq!(t.count(0), 2);
    assert_eq!(t.count(1), 1);
}

#[test]
fn find_gives_the_slot_of_a_seen_name_only() {
    let mut t = StationTable::new();
    t.observe(b"a").unwrap();
    t.observe(b"b").unwrap();
    assert_eq!(t.find(b"a"), Some(0));
    assert_eq!(t.find(b"b"), Some(1));
    assert_eq!(t.find(b"c"), None);
    assert_eq!(t.find(b""), None);
}

#[test]
fn add_counts_a_batch() {
    let mut t = StationTable::new();
    assert_eq!(t.add(b"x", 5), Ok(Placement { slot: 0, fresh: true }));
    assert_eq!(t.add(b"x", 7), Ok(Placement { slot: 0, fresh: false }));
    assert_eq!(t.count(0), 12);
}

#[test]
fn count_overflow_is_refused_and_changes_nothing() {
    let mut t = StationTable::new();
    t.add(b"x", u32::MAX - 1).unwrap();
    assert_eq!(t.add(b"x", 2), Err(TableError::CountOverflow));
    assert_eq!(t.count(0), u32::MAX - 1);
    assert_eq!(t.observe(b"x"), Ok(Placement { slot: 0, fresh: false }));
    assert_eq!(t.count(0), u32::MAX);
    assert_eq!(t.observe(b"x"), Err(TableError::CountOverflow));
    assert_eq!(t.count(0), u32::MAX);
    assert_eq!(t.len(), 1);
}

#[test]
fn merge_adds_counts_and_maps_slots() {
    let mut a = StationTable::new();
    a.add(b"Tokyo", 2).unwrap();
    a.add(b"Lagos", 3).unwrap();
    let mut b = StationTable::new();
    b.add(b"Oslo", 1).unwrap();
    b.add(b"Tokyo", 4).unwrap();
    let slots = a.merge(&b).unwrap();
    assert_eq!(slots, vec![2, 0]);
    assert_eq!(a.len(), 3);
    assert_eq!(a.name(2), b"Oslo");
    assert_eq!(a.count(0), 6);
    assert_eq!(a.count(1), 3);
    assert_eq!(a.count(2), 1);
}

#[test]
fn merge_order_does_not_change_the_counts() {
    let parts: Vec<Vec<(&[u8], u32)>> = vec![
        vec![(b"a", 1), (b"b", 2)],
        vec![(b"b", 10), (b"c", 20)],
        vec![(b"c", 100), (b"a", 200), (b"d", 300)],
    ];
    let orders: [[usize; 3]; 6] =
        [[0, 1, 2], [0, 2, 1], [1, 0, 2], [1, 2, 0], [2, 0, 1], [2, 1, 0]];
    for order in orders.iter() {
        let mut total = StationTable::new();
        for &i in order.iter() {
            let mut part = StationTable::new();
            for (name, count) in parts[i].iter() {
                part.add(name, *count).unwrap();
            }
            total.merge(&part).unwrap();
        }
        assert_eq!(total.len(), 4);
        assert_eq!(total.count(total.find(b"a").unwrap()), 201);
        assert_eq!(total.count(total.find(b"b").unwrap()), 12);
        assert_eq!(total.count(total.find(b"c").unwrap()), 120);
        assert_eq!(total.count(total.find(b"d").unwrap()), 300);
    }
}

#[test]
fn merge_that_would_overflow_changes_nothing() {
    let mut a = StationTable::new();
    a.add(b"a", 1).unwrap();
    a.add(b"b", u32::MAX).unwrap();
    let mut b = StationTable::new();
    b.add(b"c", 1).unwrap();
    b.add(b"a", 1).unwrap();
    b.add(b"b", 1).unwrap();
    assert_eq!(a.merge(&b), Err(TableError::CountOverflow));
    assert_eq!(a.len(), 2);
    assert_eq!(a.count(0), 1);
    assert_eq!(a.count(1), u32::MAX);
    assert_eq!(a.find(b"c"), None);
}

#[test]
fn sorted_slots_follow_the_names() {
    let mut t = StationTable::new();
    for name in [&b"Tokyo"[..], b"Lagos", b"Oslo", b"Os", b"Zagreb", b"Aden"] {
        t.observe(name).unwrap();
    }
    let slots = t.sorted_slots();
    assert_eq!(slots, vec![5, 1, 3, 2, 0, 4]);
    for w in slots.windows(2) {
        assert!(t.name(w[0]) < t.name(w[1]));
    }
}

#[test]
fn sorted_slots_of_an_empty_table_are_empty() {
    let t = StationTable::new();
    assert!(t.sorted_slots().is_empty());
}
