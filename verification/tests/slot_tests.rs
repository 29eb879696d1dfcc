//! The shared-memory slot protocol: framing, reading, and the overrun path.

use rust_validator::slot::{consumed_prefix, frame_slot, read_slot, SlotError, SlotRead};

#[test]
fn frame_then_read_round_trip() {
    let payload = b"hello slot".to_vec();
    let buf = frame_slot(&payload).unwrap();
    assert_eq!(buf.len(), 4096);
    match read_slot(&buf) {
        SlotRead::Record(p) => assert_eq!(p, payload),
        other => panic!("expected a record, got {:?}", other),
    }
}

#[test]
fn empty_slot_reads_empty() {
    let buf = vec![0u8; 4096];
    assert_eq!(read_slot(&buf), SlotRead::Empty);
}

#[test]
fn largest_payload_fits() {
    let payload = vec![7u8; 4091];
    let buf = frame_slot(&payload).unwrap();
    match read_slot(&buf) {
        SlotRead::Record(p) => assert_eq!(p, payload),
        other => panic!("expected a record, got {:?}", other),
    }
}

#[test]
fn overrun_prefix_is_flagged() {
    let mut buf = vec![0u8; 4096];
    // length prefix 4092: one past the capacity
    buf[0] = 0xFC;
    buf[1] = 0x0F;
    assert_eq!(read_slot(&buf), SlotRead::Overrun);
}

#[test]
fn huge_prefix_is_flagged() {
    let mut buf = vec![0u8; 4096];
    buf[0] = 0xFF;
    buf[1] = 0xFF;
    buf[2] = 0xFF;
    buf[3] = 0xFF;
    assert_eq!(read_slot(&buf), SlotRead::Overrun);
}

#[test]
fn empty_record_cannot_be_framed() {
    assert_eq!(frame_slot(&[]), Err(SlotError::EmptyRecord));
}

#[test]
fn oversized_record_cannot_be_framed() {
    let payload = vec![0u8; 4092];
    assert_eq!(frame_slot(&payload), Err(SlotError::TooLong));
}

#[test]
fn consumed_prefix_announces_empty() {
    assert_eq!(consumed_prefix(), vec![0u8, 0, 0, 0]);
    let mut buf = frame_slot(b"x".as_slice()).unwrap();
    let prefix = consumed_prefix();
    buf[..4].copy_from_slice(&prefix);
    assert_eq!(read_slot(&buf), SlotRead::Empty);
}
