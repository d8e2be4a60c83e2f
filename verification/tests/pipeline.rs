use rs_1brc::dispatch::{split_stream, ChunkDispatcher};
use rs_1brc::ingest::{process_chunk, Observation};
use rs_1brc::merger::merge_all;
use rs_1brc::present::render_line;
use rs_1brc::table::{StationTable, TableError};

#[derive(Clone, Copy)]
struct Stats {
    min: f32,
    max: f32,
    sum: f32,
}

fn round_off(value: f32) -> f32 {
    (value * 10.0).round() / 10.0
}

fn ingest(chunk: &[u8], table: &mut StationTable, stats: &mut Vec<Stats>) {
    for o in process_chunk(chunk, table).unwrap() {
        let value: f32 = fast_float::parse(&chunk[o.value_start..o.value_end]).unwrap();
        if o.fresh {
            assert_eq!(o.slot, stats.len());
            stats.push(Stats { min: value, max: value, sum: value });
        } else {
            let s = &mut stats[o.slot];
            s.min = s.min.min(value);
            s.max = s.max.max(value);
            s.sum += value;
        }
    }
}

fn aggregate_chunks(chunks: &[Vec<u8>], workers: usize) -> String {
    let mut tables: Vec<StationTable> = Vec::new();
    let mut stats: Vec<Vec<Stats>> = Vec::new();
    for w in 0..workers {
        let mut table = StationTable::new();
        let mut own: Vec<Stats> = Vec::new();
        for (i, chunk) in chunks.iter().enumerate() {
            if i % workers == w {
                ingest(chunk, &mut table, &mut own);
            }
        }
        tables.push(table);
        stats.push(own);
    }
    let merged = merge_all(&tables).unwrap();
    let mut all: Vec<Option<Stats>> = vec![None; merged.table.len()];
    for (p, own) in stats.iter().enumerate() {
        assert_eq!(merged.slots[p].len(), own.len());
        for (j, s) in own.iter().enumerate() {
            let slot = merged.slots[p][j];
            all[slot] = Some(match all[slot] {
                None => *s,
                Some(a) => Stats { min: a.min.min(s.min), max: a.max.max(s.max), sum: a.sum + s.sum },
            });
        }
    }
    let mut fields: Vec<Vec<u8>> = Vec::new();
    for (slot, s) in all.iter().enumerate() {
        let s = s.unwrap();
        let mean = round_off(s.sum / merged.table.count(slot) as f32);
        fields.push(
            format!("{:.1}/{:.1}/{:.1}", round_off(s.min), mean, round_off(s.max)).into_bytes(),
        );
    }
    let order = merged.table.sorted_slots();
    String::from_utf8(render_line(&merged.table, &order, &fields)).unwrap()
}

fn aggregate(input: &[u8], block_size: usize, workers: usize) -> String {
    aggregate_chunks(&split_stream(input, block_size), workers)
}

#[test]
fn two_stations_are_aggregated_and_sorted() {
    let input = b"Tokyo;15.2\nTokyo;18.4\nLagos;30.1\nLagos;29.9\nLagos;30.0\n";
    assert_eq!(aggregate(input, 128 * 1024, 1), "{Lagos=29.9/30.0/30.1, Tokyo=15.2/16.8/18.4}");
    assert_eq!(aggregate(input, 16, 4), "{Lagos=29.9/30.0/30.1, Tokyo=15.2/16.8/18.4}");
}

#[test]
fn single_station_single_record() {
    assert_eq!(aggregate(b"Oslo;5.5", 128 * 1024, 1), "{Oslo=5.5/5.5/5.5}");
    assert_eq!(aggregate(b"Oslo;5.5\n", 128 * 1024, 1), "{Oslo=5.5/5.5/5.5}");
    assert_eq!(aggregate(b"Oslo;5.5", 3, 2), "{Oslo=5.5/5.5/5.5}");
}

#[test]
fn record_straddling_two_blocks_is_parsed_once() {
    let mut d = ChunkDispatcher::new();
    let mut chunks: Vec<Vec<u8>> = Vec::new();
    for block in [&b"Lagos;30.1\nTokyo;15"[..], b".2\nOslo;5.5\n"] {
        if let Some(c) = d.push_block(block) {
            chunks.push(c);
        }
    }
    if let Some(c) = d.flush() {
        chunks.push(c);
    }
    assert_eq!(chunks, vec![b"Lagos;30.1\n".to_vec(), b"Tokyo;15.2\nOslo;5.5\n".to_vec()]);
    let mut table = StationTable::new();
    let seen = process_chunk(&chunks[1], &mut table).unwrap();
    assert_eq!(
        seen,
        vec![
            Observation { slot: 0, fresh: true, value_start: 6, value_end: 10 },
            Observation { slot: 1, fresh: true, value_start: 16, value_end: 19 },
        ]
    );
    assert_eq!(table.name(0), b"Tokyo");
    assert_eq!(table.count(0), 1);
    assert_eq!(
        aggregate_chunks(&chunks, 2),
        "{Lagos=30.1/30.1/30.1, Oslo=5.5/5.5/5.5, Tokyo=15.2/15.2/15.2}"
    );
}

#[test]
fn one_worker_and_many_workers_agree() {
    let input = b"b;1.0\na;-2.5\nb;3.5\nc;0.0\na;2.5\nb;-1.0\nc;10.0\nd;99.9\na;0.1\n";
    let expected = "{a=-2.5/0.0/2.5, b=-1.0/1.2/3.5, c=0.0/5.0/10.0, d=99.9/99.9/99.9}";
    for block_size in 1..40 {
        for workers in 1..5 {
            assert_eq!(aggregate(input, block_size, workers), expected);
        }
    }
}

#[test]
fn empty_input_gives_empty_braces() {
    assert_eq!(aggregate(b"", 8, 3), "{}");
}

#[test]
fn process_chunk_reports_each_record_in_order() {
    let mut table = StationTable::new();
    table.observe(b"b").unwrap();
    let seen = process_chunk(b"a;1\nb;2\na;3\n", &mut table).unwrap();
    assert_eq!(
        seen,
        vec![
            Observation { slot: 1, fresh: true, value_start: 2, value_end: 3 },
            Observation { slot: 0, fresh: false, value_start: 6, value_end: 7 },
            Observation { slot: 1, fresh: false, value_start: 10, value_end: 11 },
        ]
    );
    assert_eq!(table.len(), 2);
    assert_eq!(table.count(0), 2);
    assert_eq!(table.count(1), 2);
}

#[test]
fn process_chunk_fails_when_a_count_is_full() {
    let mut table = StationTable::new();
    table.add(b"a", u32::MAX - 1).unwrap();
    assert_eq!(process_chunk(b"a;1\nb;2\na;3\n", &mut table), Err(TableError::CountOverflow));
    assert_eq!(table.count(0), u32::MAX);
    assert_eq!(table.name(0), b"a");
}

#[test]
fn merge_all_sums_counts_and_maps_every_slot() {
    let mut a = StationTable::new();
    a.add(b"x", 2).unwrap();
    a.add(b"y", 3).unwrap();
    let mut b = StationTable::new();
    b.add(b"y", 4).unwrap();
    b.add(b"z", 5).unwrap();
    let mut c = StationTable::new();
    c.add(b"z", 6).unwrap();
    c.add(b"x", 7).unwrap();
    let merged = merge_all(&vec![a, b, c]).unwrap();
    assert_eq!(merged.slots, vec![vec![0, 1], vec![1, 2], vec![2, 0]]);
    assert_eq!(merged.table.len(), 3);
    assert_eq!(merged.table.count(0), 9);
    assert_eq!(merged.table.count(1), 7);
    assert_eq!(merged.table.count(2), 11);
}

#[test]
fn merge_all_of_nothing_is_an_empty_table() {
    let merged = merge_all(&Vec::new()).unwrap();
    assert_eq!(merged.table.len(), 0);
    assert!(merged.slots.is_empty());
}

#[test]
fn merge_all_fails_when_a_total_does_not_fit() {
    let mut a = StationTable::new();
    a.add(b"x", u32::MAX).unwrap();
    let mut b = StationTable::new();
    b.add(b"y", 1).unwrap();
    let mut c = StationTable::new();
    c.add(b"x", 1).unwrap();
    assert!(matches!(merge_all(&vec![a, b, c]), Err(TableError::CountOverflow)));
}

#[test]
fn render_line_joins_entries_in_the_given_order() {
    let mut t = StationTable::new();
    t.observe(b"Tokyo").unwrap();
    t.observe(b"Lagos").unwrap();
    let fields = vec![b"1/2/3".to_vec(), b"4/5/6".to_vec()];
    assert_eq!(render_line(&t, &[1, 0], &fields), b"{Lagos=4/5/6, Tokyo=1/2/3}".to_vec());
    assert_eq!(render_line(&t, &[0], &fields), b"{Tokyo=1/2/3}".to_vec());
    assert_eq!(render_line(&t, &[], &fields), b"{}".to_vec());
}

#[test]
fn rounding_to_tenths_is_idempotent() {
    for x in [0.0f32, 0.04, 0.05, -0.05, 1.25, -1.25, 16.8, 29.95, 99.99, -99.99, 12345.678] {
        assert_eq!(round_off(round_off(x)), round_off(x));
    }
    assert_eq!(round_off(16.75), 16.8);
    assert_eq!(round_off(-0.25), -0.3);
}

#[test]
fn chunks_hold_as_many_records_as_the_stream() {
    let input = b"b;1.0\na;-2.5\nb;3.5\nc;0.0\na;2.5\nb;-1.0\nc;10.0\nd;99.9\na;0.1\n";
    let mut whole = StationTable::new();
    process_chunk(input, &mut whole).unwrap();
    for block_size in 1..input.len() + 2 {
        let mut table = StationTable::new();
        for chunk in split_stream(input, block_size) {
            process_chunk(&chunk, &mut table).unwrap();
        }
        assert_eq!(table.len(), whole.len());
        for slot in 0..whole.len() {
            let there = table.find(whole.name(slot)).unwrap();
            assert_eq!(table.count(there), whole.count(slot));
        }
    }
    assert_eq!(whole.count(whole.find(b"a").unwrap()), 3);
    assert_eq!(whole.count(whole.find(b"b").unwrap()), 3);
    assert_eq!(whole.count(whole.find(b"c").unwrap()), 2);
    assert_eq!(whole.count(whole.find(b"d").unwrap()), 1);
}

#[test]
fn merged_stations_take_slots_in_the_order_seen() {
    let mut a = StationTable::new();
    a.observe(b"m").unwrap();
    let mut b = StationTable::new();
    b.observe(b"z").unwrap();
    b.observe(b"m").unwrap();
    b.observe(b"a").unwrap();
    let merged = merge_all(&vec![a, b]).unwrap();
    assert_eq!(merged.slots, vec![vec![0], vec![1, 0, 2]]);
    assert_eq!(merged.table.name(0), b"m");
    assert_eq!(merged.table.name(1), b"z");
    assert_eq!(merged.table.name(2), b"a");
    assert_eq!(merged.table.sorted_slots(), vec![2, 0, 1]);
}
