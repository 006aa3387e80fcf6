//! A verified lookup-argument engine: instruction semantics are reduced to
//! lookups in small precomputed subtables, a batch of lookups is laid out
//! as dense committed columns, and a sumcheck-style evaluation proof shows
//! that the committed lookups evaluate to a claimed scalar at a challenge
//! point.
pub mod bits;
pub mod densified;
pub mod field;
pub mod instruction;
pub mod lt;
pub mod subtable;
pub mod surge;
pub mod transcript;

use vstd::prelude::*;

verus! {

/// Width of one encoded instruction in the program text, in bytes.
pub const BYTES_PER_INSTRUCTION: usize = 4;

/// First RAM address at which program text is laid out.
pub const RAM_START_ADDRESS: usize = 0x8000_0000;

/// Maps an instruction's position in the program text to its RAM address.
pub fn to_ram_address(index: usize) -> (addr: usize)
    requires
        index * BYTES_PER_INSTRUCTION + RAM_START_ADDRESS <= usize::MAX,
    ensures
        addr == index * BYTES_PER_INSTRUCTION + RAM_START_ADDRESS,
{
    index * BYTES_PER_INSTRUCTION + RAM_START_ADDRESS
}

} // verus!

