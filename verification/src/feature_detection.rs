//! The vector tiers that a machine can offer.
use vstd::prelude::*;

use crate::arch::avx2_vpclmulqdq::X86_64Avx2VpclmulqdqOps;
use crate::arch::sse::X86SsePclmulqdqOps;

verus! {

/// The tier that was selected for the machine.
#[derive(Debug, Clone, Copy)]
pub enum ArchOpsInstance {
    X86SsePclmulqdq(X86SsePclmulqdqOps),
    X86_64Avx2Vpclmulqdq(X86_64Avx2VpclmulqdqOps),
    SoftwareFallback,
}

/// Whether the carry-less multiply path is usable with the selected tier.
///
/// Every x86 tier is a PCLMULQDQ one, so anything but the software fallback has the instruction.
pub fn has_clmul(ops: &ArchOpsInstance) -> (usable: bool)
    ensures
        usable == !(*ops is SoftwareFallback),
{
    !matches!(ops, ArchOpsInstance::SoftwareFallback)
}

} // verus!
