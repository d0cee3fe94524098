//! A bounded byte queue between two sockets.

use netflector::net::stream_buffer::StreamBuffer;

#[test]
fn new_buffer_is_empty() {
    let b = StreamBuffer::with_capacity(8);
    assert!(b.is_empty());
    assert_eq!(b.len(), 0);
    assert_eq!(b.pending(), b"");
}

#[test]
fn append_then_pending_returns_the_bytes() {
    let mut b = StreamBuffer::with_capacity(8);
    b.append(b"abc").unwrap();
    assert_eq!(b.pending(), b"abc");
    assert_eq!(b.len(), 3);
    assert!(!b.is_empty());
}

#[test]
fn consume_advances_the_front() {
    let mut b = StreamBuffer::with_capacity(8);
    b.append(b"abcd").unwrap();
    b.consume(2);
    assert_eq!(b.pending(), b"cd");
    assert_eq!(b.len(), 2);
}

#[test]
fn consuming_everything_empties_and_offers_full_capacity_again() {
    let mut b = StreamBuffer::with_capacity(4);
    b.append(b"abcd").unwrap();
    b.consume(4);
    assert!(b.is_empty());
    // The cursors reset, so the whole capacity is available, not just the tail.
    b.append(b"wxyz").unwrap();
    assert_eq!(b.pending(), b"wxyz");
}

#[test]
fn append_compacts_to_reclaim_consumed_space() {
    let mut b = StreamBuffer::with_capacity(4);
    b.append(b"ab").unwrap();
    b.consume(2); // consumed=2, filled=2: the tail has only 2 free bytes
    // 3 bytes don't fit the tail but do fit after reclaiming the consumed prefix.
    b.append(b"xyz").unwrap();
    assert_eq!(b.pending(), b"xyz");
    assert_eq!(b.len(), 3);
}

#[test]
fn fills_to_exactly_capacity() {
    let mut b = StreamBuffer::with_capacity(4);
    b.append(b"abcd").unwrap();
    assert_eq!(b.len(), 4);
    assert!(b.append(b"e").is_err()); // one more overflows
}

#[test]
fn append_past_capacity_overflows_and_leaves_the_buffer_intact() {
    let mut b = StreamBuffer::with_capacity(4);
    b.append(b"abc").unwrap();
    assert!(b.append(b"de").is_err()); // 3 + 2 > 4
    // The failed append didn't disturb the live bytes.
    assert_eq!(b.pending(), b"abc");
    assert_eq!(b.len(), 3);
}

#[test]
fn append_of_empty_data_is_a_noop() {
    let mut b = StreamBuffer::with_capacity(4);
    b.append(b"").unwrap();
    assert!(b.is_empty());
    b.append(b"ab").unwrap();
    b.append(b"").unwrap();
    assert_eq!(b.pending(), b"ab");
}

#[test]
fn free_tail_mut_offers_the_spare_capacity_and_commit_fills_it() {
    let mut b = StreamBuffer::with_capacity(8);
    b.append(b"ab").unwrap();
    let tail = b.free_tail_mut();
    assert_eq!(tail.len(), 6);
    tail[..3].copy_from_slice(b"xyz");
    b.commit(3);
    assert_eq!(b.pending(), b"abxyz");
}

#[test]
fn free_tail_mut_compacts_when_the_tail_is_exhausted() {
    let mut b = StreamBuffer::with_capacity(4);
    b.append(b"abcd").unwrap(); // tail full
    b.consume(2); // live "cd"; tail exhausted but 2 bytes reclaimable
    let tail = b.free_tail_mut(); // compacts: "cd" slides to the front
    assert_eq!(tail.len(), 2);
    tail.copy_from_slice(b"ef");
    b.commit(2);
    assert_eq!(b.pending(), b"cdef");
}

#[test]
fn free_tail_mut_is_empty_when_full_of_live_bytes() {
    let mut b = StreamBuffer::with_capacity(4);
    b.append(b"abcd").unwrap();
    assert!(b.free_tail_mut().is_empty()); // no consumed prefix to reclaim
}

#[test]
fn writes_then_reads_the_written_prefix() {
    let mut b = StreamBuffer::with_capacity(8);
    b.write_all(b"abc").unwrap();
    assert_eq!(b.pending(), b"abc");
    b.write_all(format!("{}", 42).as_bytes()).unwrap();
    assert_eq!(b.pending(), b"abc42");
}

#[test]
fn stream_buffer_clear_resets_but_keeps_writing_from_the_front() {
    let mut b = StreamBuffer::with_capacity(8);
    b.write_all(b"abc").unwrap();
    b.clear();
    assert_eq!(b.pending(), b"");
    b.write_all(b"xy").unwrap();
    assert_eq!(b.pending(), b"xy");
}

#[test]
fn stream_buffer_write_past_capacity_is_a_short_write() {
    let mut b = StreamBuffer::with_capacity(4);
    // The 4 fit-able bytes are written even though the overflow makes `write_all` fail.
    assert!(b.write_all(b"abcde").is_err());
    assert_eq!(b.pending(), b"abcd");
}

#[test]
fn stream_buffer_writing_to_a_full_buffer_makes_no_progress() {
    let mut b = StreamBuffer::with_capacity(3);
    b.write_all(b"abc").unwrap();
    assert_eq!(b.write(b"d"), 0);
    assert!(b.write_all(b"d").is_err());
    assert_eq!(b.pending(), b"abc");
}

#[test]
fn a_drained_buffer_offers_its_whole_capacity_however_it_was_drained() {
    let mut b = StreamBuffer::with_capacity(8);
    assert_eq!(b.free_tail_mut().len(), 8);
    b.append(b"abcdef").unwrap();
    b.consume(2);
    assert_eq!(b.free_tail_mut().len(), 2, "the tail alone while bytes are live");
    b.consume(4);
    assert_eq!(b.free_tail_mut().len(), 8);
    b.append(b"abc").unwrap();
    b.clear();
    assert_eq!(b.free_tail_mut().len(), 8);
}
