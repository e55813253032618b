//! The bus protocol that a memory map is addressed through.
use vstd::prelude::*;

verus! {

/// Addressing parameters of the bus protocol.
pub struct Protocol {
    /// An optional name for the protocol
    pub name: Option<String>,
    /// Maximum address in terms of addressUnit.
    pub address_max: u64,
    /// Number of bytes accessed with one address
    pub address_unit: u64,
    /// Number of bytes aligned with the protocol's minimum transfer size. Must be greater or
    /// equal to addressUnit
    pub address_align: u64,
}

} // verus!
