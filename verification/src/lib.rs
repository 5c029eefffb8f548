//! CRC combination and folding, over polynomials with coefficients in GF(2).
pub mod algorithms;
pub mod arch;
pub mod bits;
pub mod block_laws;
pub mod call_laws;
pub mod catalogue_laws;
pub mod checksum;
pub mod combine;
pub mod digits;
pub mod enums;
pub mod feature_detection;
pub mod field;
pub mod fold_laws;
pub mod folding;
pub mod laws;
pub mod params;
pub mod poly;
pub mod register;
pub mod structs;
pub mod traits;
pub mod vector_laws;
pub mod widths;
