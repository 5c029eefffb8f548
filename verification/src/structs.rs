//! The state that block processing carries.
use vstd::prelude::*;

use crate::arch::vector::Vector128;

verus! {

/// A CRC register held in a vector.
#[derive(Debug, Clone, Copy)]
pub struct CrcState {
    /// The register, positioned to meet the first bytes of the message.
    pub value: Vector128,
    /// Whether the CRC is a reflected one.
    pub reflected: bool,
}

} // verus!
