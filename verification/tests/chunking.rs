use rs_1brc::dispatch::{split_stream, ChunkDispatcher, DispatchError};
use rs_1brc::lines::find_new_line_pos;

#[test]
fn last_line_break_is_found() {
    assert_eq!(find_new_line_pos(b"a;1\nb;2\nc"), Some(7));
    assert_eq!(find_new_line_pos(b"a;1\n"), Some(3));
    assert_eq!(find_new_line_pos(b"\n"), Some(0));
}

#[test]
fn block_without_line_break_has_no_position() {
    assert_eq!(find_new_line_pos(b"abc;1.0"), None);
    assert_eq!(find_new_line_pos(b""), None);
}

#[test]
fn block_with_line_break_releases_one_chunk() {
    let mut d = ChunkDispatcher::new();
    let chunk = d.push_block(b"a;1\nb;2\nc;");
    assert_eq!(chunk, Some(b"a;1\nb;2\n".to_vec()));
    assert_eq!(d.pending_len(), 2);
    let chunk = d.push_block(b"3\n");
    assert_eq!(chunk, Some(b"c;3\n".to_vec()));
    assert_eq!(d.pending_len(), 0);
    assert_eq!(d.flush(), None);
}

#[test]
fn block_without_line_break_is_carried() {
    let mut d = ChunkDispatcher::new();
    assert_eq!(d.push_block(b"Ham"), None);
    assert_eq!(d.push_block(b"burg;1"), None);
    assert_eq!(d.pending_len(), 9);
    assert_eq!(d.push_block(b"2.0\nOs"), Some(b"Hamburg;12.0\n".to_vec()));
    assert_eq!(d.pending_len(), 2);
}

#[test]
fn block_ending_on_line_break_leaves_nothing_pending() {
    let mut d = ChunkDispatcher::new();
    assert_eq!(d.push_block(b"x;1\n"), Some(b"x;1\n".to_vec()));
    assert_eq!(d.pending_len(), 0);
}

#[test]
fn flush_releases_an_unterminated_record() {
    let mut d = ChunkDispatcher::new();
    assert_eq!(d.push_block(b"a;1\nOslo;5.5"), Some(b"a;1\n".to_vec()));
    assert_eq!(d.flush(), Some(b"Oslo;5.5".to_vec()));
    assert_eq!(d.pending_len(), 0);
    assert_eq!(d.flush(), None);
}

#[test]
fn empty_block_changes_nothing() {
    let mut d = ChunkDispatcher::new();
    assert_eq!(d.push_block(b"ab"), None);
    assert_eq!(d.push_block(b""), None);
    assert_eq!(d.pending_len(), 2);
}

#[test]
fn chunks_reproduce_the_stream_for_every_block_size() {
    let input = b"Tokyo;15.2\nTokyo;18.4\nLagos;30.1\nLagos;29.9\nLagos;30.0\nOslo;5.5";
    for block_size in 1..=input.len() + 3 {
        let chunks = split_stream(input, block_size);
        let mut joined: Vec<u8> = Vec::new();
        for (i, c) in chunks.iter().enumerate() {
            assert!(!c.is_empty());
            if i + 1 < chunks.len() {
                assert_eq!(c.last().copied(), Some(b'\n'));
            }
            joined.extend_from_slice(c);
        }
        assert_eq!(joined, input.to_vec());
    }
}

#[test]
fn split_stream_cuts_at_the_last_line_break_of_each_block() {
    let chunks = split_stream(b"a;1\nb;2\nc;3\n", 4);
    assert_eq!(chunks, vec![b"a;1\n".to_vec(), b"b;2\n".to_vec(), b"c;3\n".to_vec()]);
    let chunks = split_stream(b"a;1\nb;2\nc;3\n", 6);
    assert_eq!(chunks, vec![b"a;1\n".to_vec(), b"b;2\nc;3\n".to_vec()]);
    let chunks = split_stream(b"a;1\nb;2\nc;3\n", 9);
    assert_eq!(chunks, vec![b"a;1\nb;2\n".to_vec(), b"c;3\n".to_vec()]);
    let chunks = split_stream(b"a;1\nb;2\nc;3", 100);
    assert_eq!(chunks, vec![b"a;1\nb;2\n".to_vec(), b"c;3".to_vec()]);
}

#[test]
fn split_stream_of_nothing_is_nothing() {
    let chunks = split_stream(b"", 4);
    assert!(chunks.is_empty());
}

#[test]
fn record_longer_than_the_limit_is_refused() {
    let mut d = ChunkDispatcher::new();
    assert_eq!(d.push_block_bounded(b"abcd", 6), Ok(None));
    assert_eq!(d.push_block_bounded(b"efg", 6), Err(DispatchError::RecordTooLong));
    assert_eq!(d.pending_len(), 4);
    assert_eq!(d.push_block_bounded(b"ef", 6), Ok(None));
    assert_eq!(d.pending_len(), 6);
    assert_eq!(d.push_block_bounded(b";1\nxy", 6), Ok(Some(b"abcdef;1\n".to_vec())));
    assert_eq!(d.pending_len(), 2);
    assert_eq!(d.push_block_bounded(b"\n0123456", 6), Err(DispatchError::RecordTooLong));
    assert_eq!(d.pending_len(), 2);
    assert_eq!(d.push_block_bounded(b"\n012345", 6), Ok(Some(b"xy\n".to_vec())));
    assert_eq!(d.pending_len(), 6);
}
