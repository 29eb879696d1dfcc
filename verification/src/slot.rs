//! The shared-memory slot protocol: a 4096-octet slot holding a 4-octet
//! little-endian length prefix followed by the payload. A zero length means
//! the slot is empty; a length at or beyond the payload capacity is an
//! overrun. The reader zeroes the prefix after consumption.

use vstd::prelude::*;

use vstd::bytes::{
    lemma_auto_spec_u32_to_from_le_bytes, spec_u32_from_le_bytes, u32_from_le_bytes,
    u32_to_le_bytes,
};
use vstd::slice::{slice_subrange, slice_to_vec};

verus! {

/// The size of the memory-mapped slot, in octets.
pub const SLOT_SIZE: usize = 4096;

/// The largest payload the slot can carry: the slot minus its length prefix,
/// exclusive.
pub const SLOT_CAPACITY: usize = 4092;

/// The length announced by a slot's prefix.
pub open spec fn slot_len(buf: Seq<u8>) -> int {
    spec_u32_from_le_bytes(buf.subrange(0, 4)) as int
}

/// What one read of the slot finds.
#[derive(Debug, PartialEq, Eq)]
pub enum SlotRead {
    /// The length prefix is zero: no pending record.
    Empty,
    /// A pending record of the announced length.
    Record(Vec<u8>),
    /// The length prefix is out of range; the slot must be cleared and the
    /// record abandoned.
    Overrun,
}

/// Why a record cannot be framed into the slot.
#[derive(Clone, Copy, Debug, PartialEq, Eq, Structural)]
pub enum SlotError {
    /// Empty records cannot be framed: a zero prefix means an empty slot.
    EmptyRecord,
    /// The payload does not fit the slot.
    TooLong,
}

/// Read the slot: classify its length prefix and extract a pending payload.
pub fn read_slot(buf: &[u8]) -> (r: SlotRead)
    requires
        buf@.len() == SLOT_SIZE,
    ensures
        slot_len(buf@) == 0 ==> r is Empty,
        0 < slot_len(buf@) < SLOT_CAPACITY ==> (r matches SlotRead::Record(p) && p@
            == buf@.subrange(4, 4 + slot_len(buf@))),
        slot_len(buf@) >= SLOT_CAPACITY ==> r is Overrun,
{
    let prefix = slice_subrange(buf, 0, 4);
    let len = u32_from_le_bytes(prefix) as usize;
    proof {
        assert(len as int == slot_len(buf@));
    }
    if len == 0 {
        SlotRead::Empty
    } else if len < SLOT_CAPACITY {
        let payload = slice_to_vec(slice_subrange(buf, 4, 4 + len));
        SlotRead::Record(payload)
    } else {
        SlotRead::Overrun
    }
}

/// Frame a record into a fresh slot image: the length prefix, the payload,
/// and a zeroed tail.
pub fn frame_slot(payload: &[u8]) -> (r: Result<Vec<u8>, SlotError>)
    ensures
        payload@.len() == 0 ==> r == Result::<Vec<u8>, SlotError>::Err(SlotError::EmptyRecord),
        payload@.len() >= SLOT_CAPACITY ==> r == Result::<Vec<u8>, SlotError>::Err(
            SlotError::TooLong,
        ),
        0 < payload@.len() < SLOT_CAPACITY ==> (r matches Ok(buf) && buf@.len() == SLOT_SIZE
            && slot_len(buf@) == payload@.len() && buf@.subrange(4, 4 + payload@.len() as int)
            == payload@ && (forall|i: int|
            4 + payload@.len() <= i < SLOT_SIZE ==> buf@[i] == 0)),
{
    if payload.len() == 0 {
        return Err(SlotError::EmptyRecord);
    }
    if payload.len() >= SLOT_CAPACITY {
        return Err(SlotError::TooLong);
    }
    let mut buf = u32_to_le_bytes(payload.len() as u32);
    let mut j: usize = 0;
    while j < payload.len()
        invariant
            j <= payload@.len() < SLOT_CAPACITY,
            buf@.len() == 4 + j,
            buf@.subrange(0, 4) =~= vstd::bytes::spec_u32_to_le_bytes(payload@.len() as u32),
            forall|i: int| 0 <= i < j ==> buf@[4 + i] == payload@[i],
        decreases payload@.len() - j,
    {
        buf.push(payload[j]);
        j = j + 1;
    }
    while buf.len() < SLOT_SIZE
        invariant
            4 + payload@.len() <= buf@.len() <= SLOT_SIZE,
            buf@.subrange(0, 4) =~= vstd::bytes::spec_u32_to_le_bytes(payload@.len() as u32),
            forall|i: int| 0 <= i < payload@.len() ==> buf@[4 + i] == payload@[i],
            forall|i: int| 4 + payload@.len() <= i < buf@.len() ==> buf@[i] == 0,
        decreases SLOT_SIZE - buf@.len(),
    {
        buf.push(0);
    }
    proof {
        lemma_auto_spec_u32_to_from_le_bytes();
        assert(slot_len(buf@) == payload@.len());
        assert(buf@.subrange(4, 4 + payload@.len() as int) =~= payload@);
    }
    Ok(buf)
}

/// The prefix a reader writes back to mark the slot consumed: four zero
/// octets, announcing an empty slot.
pub fn consumed_prefix() -> (r: Vec<u8>)
    ensures
        r@.len() == 4,
        spec_u32_from_le_bytes(r@) == 0,
{
    let r = u32_to_le_bytes(0);
    proof {
        lemma_auto_spec_u32_to_from_le_bytes();
    }
    r
}

} // verus!
