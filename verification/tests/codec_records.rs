//! Tests for the length-delimited record codec.

use graph_reduce::codec::{CodecError, LengthDelimitedIter};

#[test]
fn splits_two_records() {
    let data = vec![0u8, 4, 1, 2, 0, 3, 9];
    let mut it = LengthDelimitedIter::new(data);
    assert_eq!(it.next(), Some(Ok(vec![0u8, 4, 1, 2])));
    assert_eq!(it.next(), Some(Ok(vec![0u8, 3, 9])));
    assert_eq!(it.next(), None);
}

#[test]
fn record_includes_length_prefix() {
    // length 2: a record that is nothing but its own length field
    let data = vec![0u8, 2, 0, 2];
    let mut it = LengthDelimitedIter::new(data);
    assert_eq!(it.next(), Some(Ok(vec![0u8, 2])));
    assert_eq!(it.next(), Some(Ok(vec![0u8, 2])));
    assert_eq!(it.next(), None);
}

#[test]
fn empty_buffer_yields_nothing() {
    let mut it = LengthDelimitedIter::new(vec![]);
    assert_eq!(it.next(), None);
}

#[test]
fn trailing_single_byte_ends_iteration() {
    let data = vec![0u8, 3, 9, 7];
    let mut it = LengthDelimitedIter::new(data);
    assert_eq!(it.next(), Some(Ok(vec![0u8, 3, 9])));
    assert_eq!(it.next(), None);
}

#[test]
fn length_below_two_is_rejected() {
    let data = vec![0u8, 1, 5, 5];
    let mut it = LengthDelimitedIter::new(data);
    assert_eq!(it.next(), Some(Err(CodecError::BadLength)));
    assert_eq!(it.next(), None);
}

#[test]
fn overrunning_length_is_rejected() {
    let data = vec![0u8, 5, 1];
    let mut it = LengthDelimitedIter::new(data);
    assert_eq!(it.next(), Some(Err(CodecError::Truncated)));
    assert_eq!(it.next(), None);
}

#[test]
fn big_endian_length() {
    // length field 0x0103 = 259 over a 3-byte buffer: truncated
    let data = vec![1u8, 3, 0];
    let mut it = LengthDelimitedIter::new(data);
    assert_eq!(it.next(), Some(Err(CodecError::Truncated)));
}
