use embedded_lib::shared_ringbuffer::CriticalSection;
use embedded_lib::shared_ringbuffer::LocalCriticalSection;
use embedded_lib::shared_ringbuffer::SharedRingBuffer;
use embedded_lib::shared_ringbuffer::SharedRingBufferError;
use embedded_lib::shared_ringbuffer::SharedRingBufferWithCS;

/// A capability that is never granted, for exercising the lock-failure
/// paths.
struct DeniedLock;

impl CriticalSection for DeniedLock {
    fn lock(&mut self) -> Result<(), SharedRingBufferError> {
        Err(SharedRingBufferError::CantLock)
    }

    fn release(&mut self) {}
}

#[test]
fn write_then_read_round_trips() {
    let mut ring = SharedRingBuffer::<8, 4>::assign(544);
    assert!(ring.write(b"hello").is_ok());
    let mut out = vec![0u8; 5];
    let n = ring.read(&mut out).unwrap();
    assert_eq!(n, 5);
    assert_eq!(out, b"hello".to_vec());
}

#[test]
fn round_trip_of_full_frame() {
    let mut ring = SharedRingBuffer::<4, 4>::assign(528);
    assert!(ring.write(b"wxyz").is_ok());
    let mut out = vec![0u8; 4];
    assert_eq!(ring.read(&mut out), Ok(4));
    assert_eq!(out, b"wxyz".to_vec());
}

#[test]
fn short_message_in_fresh_frame_reads_back_zero_padded() {
    let mut ring = SharedRingBuffer::<4, 4>::assign(528);
    assert!(ring.write(b"ab").is_ok());
    let mut out = vec![9u8; 4];
    assert_eq!(ring.read(&mut out), Ok(4));
    assert_eq!(out, b"ab\0\0".to_vec());
}

#[test]
fn read_copies_at_most_destination_length() {
    let mut ring = SharedRingBuffer::<4, 4>::assign(528);
    assert!(ring.write(b"abcd").is_ok());
    let mut out = vec![0u8; 2];
    assert_eq!(ring.read(&mut out), Ok(2));
    assert_eq!(out, b"ab".to_vec());
    // The frame was consumed whole even though only a prefix was copied.
    assert_eq!(ring.read(&mut out), Err(SharedRingBufferError::NoData));
}

#[test]
fn read_copies_at_most_frame_size() {
    let mut ring = SharedRingBuffer::<4, 4>::assign(528);
    assert!(ring.write(b"abcd").is_ok());
    let mut out = vec![7u8; 6];
    assert_eq!(ring.read(&mut out), Ok(4));
    assert_eq!(out, b"abcd\x07\x07".to_vec());
}

#[test]
fn full_buffer_rejects_write_until_one_read() {
    let mut ring = SharedRingBuffer::<4, 4>::assign(528);
    assert_eq!(ring.write(b"one"), Ok(()));
    assert_eq!(ring.write(b"two"), Ok(()));
    assert_eq!(ring.write(b"tre"), Ok(()));
    // One slot is always kept empty: the fourth write must fail.
    assert_eq!(ring.write(b"four"), Err(SharedRingBufferError::NoSpace));
    let mut out = vec![0u8; 3];
    assert_eq!(ring.read(&mut out), Ok(3));
    assert_eq!(out, b"one".to_vec());
    assert_eq!(ring.write(b"four"), Ok(()));
}

#[test]
fn reads_preserve_write_order() {
    let mut ring = SharedRingBuffer::<2, 8>::assign(528);
    for msg in [b"aa", b"bb", b"cc"] {
        assert!(ring.write(msg).is_ok());
    }
    let mut out = vec![0u8; 2];
    assert_eq!(ring.read(&mut out), Ok(2));
    assert_eq!(out, b"aa".to_vec());
    assert_eq!(ring.read(&mut out), Ok(2));
    assert_eq!(out, b"bb".to_vec());
    assert_eq!(ring.read(&mut out), Ok(2));
    assert_eq!(out, b"cc".to_vec());
}

#[test]
fn indices_wrap_around_the_slot_array() {
    let mut ring = SharedRingBuffer::<2, 3>::assign(518);
    let mut out = vec![0u8; 2];
    for round in 0u8..9 {
        let msg = [round, round];
        assert!(ring.write(&msg).is_ok());
        assert_eq!(ring.read(&mut out), Ok(2));
        assert_eq!(out, msg.to_vec());
    }
    assert_eq!(ring.read(&mut out), Err(SharedRingBufferError::NoData));
}

#[test]
fn read_on_fresh_buffer_fails_with_no_data() {
    let mut ring = SharedRingBuffer::<8, 4>::assign(544);
    let mut out = vec![5u8; 8];
    assert_eq!(ring.read(&mut out), Err(SharedRingBufferError::NoData));
    // Nothing moved: a following write and read behave as on a fresh buffer.
    assert_eq!(out, vec![5u8; 8]);
    assert!(ring.write(b"later").is_ok());
    let mut out2 = vec![0u8; 5];
    assert_eq!(ring.read(&mut out2), Ok(5));
    assert_eq!(out2, b"later".to_vec());
}

#[test]
fn size_reports_the_bound_region() {
    let ring = SharedRingBuffer::<8, 4>::assign(600);
    assert_eq!(ring.size(), 600);
}

#[test]
fn overwriting_ring_never_fails_for_space() {
    let mut ring =
        SharedRingBufferWithCS::<4, 4, LocalCriticalSection>::assign(528, LocalCriticalSection::new());
    for round in 0u8..4 {
        let msg = [round; 4];
        assert_eq!(ring.write(&msg), Ok(()));
    }
    // The fourth write displaced the oldest frame: the first read yields
    // the second message, not the first.
    let mut out = vec![0u8; 4];
    assert_eq!(ring.read(&mut out), Ok(4));
    assert_eq!(out, vec![1u8; 4]);
    assert_eq!(ring.read(&mut out), Ok(4));
    assert_eq!(out, vec![2u8; 4]);
    assert_eq!(ring.read(&mut out), Ok(4));
    assert_eq!(out, vec![3u8; 4]);
    assert_eq!(ring.read(&mut out), Err(SharedRingBufferError::NoData));
}

#[test]
fn overwriting_ring_round_trips_like_the_plain_one() {
    let mut ring =
        SharedRingBufferWithCS::<8, 4, LocalCriticalSection>::assign(544, LocalCriticalSection::new());
    assert_eq!(ring.write(b"ping"), Ok(()));
    let mut out = vec![0u8; 4];
    assert_eq!(ring.read(&mut out), Ok(4));
    assert_eq!(out, b"ping".to_vec());
}

#[test]
fn guarded_read_on_empty_buffer_fails_with_no_data() {
    let mut ring =
        SharedRingBufferWithCS::<8, 4, LocalCriticalSection>::assign(544, LocalCriticalSection::new());
    let mut out = vec![0u8; 8];
    assert_eq!(ring.read(&mut out), Err(SharedRingBufferError::NoData));
    assert_eq!(out, vec![0u8; 8]);
}

#[test]
fn refused_capability_fails_both_operations() {
    let mut ring = SharedRingBufferWithCS::<8, 4, DeniedLock>::assign(544, DeniedLock);
    assert_eq!(ring.write(b"msg"), Err(SharedRingBufferError::CantLock));
    let mut out = vec![0u8; 8];
    assert_eq!(ring.read(&mut out), Err(SharedRingBufferError::CantLock));
    assert_eq!(out, vec![0u8; 8]);
}

#[test]
fn guarded_size_reports_the_bound_region() {
    let ring =
        SharedRingBufferWithCS::<8, 4, LocalCriticalSection>::assign(700, LocalCriticalSection::new());
    assert_eq!(ring.size(), 700);
}

#[test]
fn local_capability_grants_and_releases() {
    let mut lock = LocalCriticalSection::new();
    assert_eq!(lock.lock(), Ok(()));
    // Held: a second acquisition is refused.
    assert_eq!(lock.lock(), Err(SharedRingBufferError::CantLock));
    lock.release();
    assert_eq!(lock.lock(), Ok(()));
}

#[test]
fn error_messages_name_each_condition() {
    assert_eq!(SharedRingBufferError::NoSpace.message(), "No Space");
    assert_eq!(SharedRingBufferError::NoData.message(), "No Data");
    assert_eq!(SharedRingBufferError::CantLock.message(), "Can't lock");
}
