//! Vector operations and the tiers built on them.
pub mod avx2_vpclmulqdq;
pub mod sse;
pub mod vector;
