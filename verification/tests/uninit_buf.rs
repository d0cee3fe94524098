//! A bounded buffer that is written once and read whole.

use netflector::net::uninit_buf::UninitBuf;

#[test]
fn writes_then_reads_the_filled_prefix() {
    let mut b = UninitBuf::with_capacity(8);
    b.write_all(b"abc").unwrap();
    assert_eq!(b.filled(), b"abc");
    b.write_all(format!("{}", 42).as_bytes()).unwrap();
    assert_eq!(b.filled(), b"abc42");
}

#[test]
fn uninit_buf_clear_resets_but_keeps_writing_from_the_front() {
    let mut b = UninitBuf::with_capacity(8);
    b.write_all(b"abc").unwrap();
    b.clear();
    assert_eq!(b.filled(), b"");
    b.write_all(b"xy").unwrap();
    assert_eq!(b.filled(), b"xy");
}

#[test]
fn unwritten_buffer_is_empty_and_unallocated() {
    let b = UninitBuf::with_capacity(8);
    assert_eq!(b.filled(), b"");
}

#[test]
fn uninit_buf_write_past_capacity_is_a_short_write() {
    let mut b = UninitBuf::with_capacity(4);
    // The 4 fit-able bytes land before the overflow makes `write_all` fail rather than truncate.
    assert!(b.write_all(b"abcde").is_err());
    assert_eq!(b.filled(), b"abcd");
}

#[test]
fn uninit_buf_writing_to_a_full_buffer_makes_no_progress() {
    let mut b = UninitBuf::with_capacity(3);
    b.write_all(b"abc").unwrap();
    assert_eq!(b.write(b"d"), 0);
    assert!(b.write_all(b"d").is_err());
    assert_eq!(b.filled(), b"abc");
}
