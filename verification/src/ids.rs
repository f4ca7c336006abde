//! Identity types: machines, files and tags.
//!
//! A `MachineId` is derived from a stable hardware identifier (the MAC
//! address of a network interface), a `FileId` and a `TagId` are generated
//! 128-bit random identifiers. All three are plain integers inside, so that
//! they have a total order usable as a deterministic tiebreak during merge.

use vstd::prelude::*;

verus! {

/// Stable identifier of one physical participant, derived from a hardware
/// (MAC) address. Unique per machine; the join key across operation logs.
#[derive(Clone, Copy, PartialEq, Eq, Structural, Hash, Debug)]
pub struct MachineId {
    pub bits: u64,
}

/// Generated unique identifier of one logical file, stable across renames,
/// moves and metadata edits; never reused.
#[derive(Clone, Copy, PartialEq, Eq, Structural, Hash, Debug)]
pub struct FileId {
    pub bits: u128,
}

/// Generated unique identifier of one tag. Tag identity is by id, never by
/// name: two machines may create tags with equal names and distinct ids.
#[derive(Clone, Copy, PartialEq, Eq, Structural, Hash, Debug)]
pub struct TagId {
    pub bits: u128,
}

/// Relies on mac_address::get_mac_address: returns the MAC address of a
/// local network interface, or None when the host has none; the six address
/// bytes are packed into the low 48 bits of a u64. The result depends on the
/// host machine, so nothing is promised of its value.
#[verifier::external_body]
pub fn host_machine_id() -> (r: Option<MachineId>)
{
    match mac_address::get_mac_address() {
        Ok(Some(addr)) => {
            let b = addr.bytes();
            let bits = u64::from_be_bytes([0, 0, b[0], b[1], b[2], b[3], b[4], b[5]]);
            Some(MachineId { bits })
        }
        _ => None,
    }
}

/// Relies on uuid::Uuid::new_v4: returns a random (version 4) UUID, here as
/// its 128-bit integer value. The result is random, so nothing is promised
/// of its value; collision freedom across machines is the point of using a
/// 128-bit random identifier, not something a contract can state.
#[verifier::external_body]
pub fn fresh_file_id() -> (r: FileId)
{
    FileId { bits: uuid::Uuid::new_v4().as_u128() }
}

} // verus!
