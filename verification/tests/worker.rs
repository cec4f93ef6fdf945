use cnterminal::worker::{RxBatch, BATCH_FLUSH_BYTES, BATCH_MAX_AGE_NANOS};

#[test]
fn small_fresh_batch_is_kept() {
    let mut b = RxBatch::new();
    assert_eq!(b.take_if_due(BATCH_MAX_AGE_NANOS), None);
    b.push(b"abc");
    assert_eq!(b.take_if_due(0), None);
    assert_eq!(b.take_if_due(BATCH_MAX_AGE_NANOS - 1), None);
    assert_eq!(b.pending, b"abc".to_vec());
}

#[test]
fn old_batch_is_handed_over() {
    let mut b = RxBatch::new();
    b.push(b"ab");
    b.push(b"cd");
    assert_eq!(b.take_if_due(BATCH_MAX_AGE_NANOS), Some(b"abcd".to_vec()));
    assert!(b.pending.is_empty());
    assert_eq!(b.take_if_due(u64::MAX), None);
}

#[test]
fn large_batch_is_handed_over_at_once() {
    let mut b = RxBatch::new();
    b.push(&vec![7u8; BATCH_FLUSH_BYTES - 1]);
    assert_eq!(b.take_if_due(0), None);
    b.push(&[8u8]);
    let chunk = b.take_if_due(0).unwrap();
    assert_eq!(chunk.len(), BATCH_FLUSH_BYTES);
    assert_eq!(chunk[BATCH_FLUSH_BYTES - 1], 8);
}

#[test]
fn leftovers_on_finish() {
    let mut b = RxBatch::new();
    b.push(b"tail");
    assert_eq!(b.finish(), Some(b"tail".to_vec()));
    assert_eq!(RxBatch::new().finish(), None);
}
