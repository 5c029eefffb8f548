//! How message bytes are ordered within a vector.
use vstd::prelude::*;

use crate::arch::vector::Vector128;

verus! {

/// The byte shuffle that brings a loaded vector into polynomial order.
#[derive(Debug, Clone, Copy)]
pub enum Reflector {
    /// Reflected CRCs take the bytes as they are.
    NoReflector,
    /// Forward CRCs reverse them, by a shuffle with this mask.
    ForwardReflector { smask: Vector128 },
}

} // verus!
