//! The catalogued CRCs that parameters are ready for.
use vstd::arithmetic::power2::*;
use vstd::prelude::*;

use crate::bits::lemma_pow2_64;
use crate::combine::CombineKeys;
use crate::field::valid_poly;
use crate::params::CrcParams;

verus! {

/// A CRC of the catalogue.
#[derive(Debug, Clone, Copy, PartialEq, Eq, Structural)]
pub enum CrcAlgorithm {
    Crc32IsoHdlc,
    Crc32Iscsi,
    Crc32Bzip2,
    Crc64Nvme,
    Crc64Xz,
    Crc64Redis,
}

/// The parameters that the catalogue lists.
pub struct CatalogueEntry {
    pub name: &'static str,
    pub width: u8,
    pub poly: u64,
    pub init: u64,
    pub reflected: bool,
    pub xorout: u64,
    pub check: u64,
}

impl CrcAlgorithm {
    /// What the catalogue lists for the algorithm.
    pub open spec fn entry(self) -> CatalogueEntry {
        match self {
            CrcAlgorithm::Crc32IsoHdlc => CatalogueEntry {
                name: "CRC-32/ISO-HDLC",
                width: 32,
                poly: 0x04c11db7,
                init: 0xffff_ffff,
                reflected: true,
                xorout: 0xffff_ffff,
                check: 0xcbf4_3926,
            },
            CrcAlgorithm::Crc32Iscsi => CatalogueEntry {
                name: "CRC-32/ISCSI",
                width: 32,
                poly: 0x1edc6f41,
                init: 0xffff_ffff,
                reflected: true,
                xorout: 0xffff_ffff,
                check: 0xe306_9283,
            },
            CrcAlgorithm::Crc32Bzip2 => CatalogueEntry {
                name: "CRC-32/BZIP2",
                width: 32,
                poly: 0x04c11db7,
                init: 0xffff_ffff,
                reflected: false,
                xorout: 0xffff_ffff,
                check: 0xfc89_1918,
            },
            CrcAlgorithm::Crc64Nvme => CatalogueEntry {
                name: "CRC-64/NVME",
                width: 64,
                poly: 0xad93d235_94c93659,
                init: 0xffff_ffff_ffff_ffff,
                reflected: true,
                xorout: 0xffff_ffff_ffff_ffff,
                check: 0xae8b_1486_0a79_9888,
            },
            CrcAlgorithm::Crc64Xz => CatalogueEntry {
                name: "CRC-64/XZ",
                width: 64,
                poly: 0x42f0e1eb_a9ea3693,
                init: 0xffff_ffff_ffff_ffff,
                reflected: true,
                xorout: 0xffff_ffff_ffff_ffff,
                check: 0x995d_c9bb_df19_39fa,
            },
            CrcAlgorithm::Crc64Redis => CatalogueEntry {
                name: "CRC-64/REDIS",
                width: 64,
                poly: 0xad93d235_94c935a9,
                init: 0,
                reflected: true,
                xorout: 0,
                check: 0xe9c6_d914_c4b8_d9ca,
            },
        }
    }
}

/// Parameters with their keys for combining prepared.
fn prepared(params: CrcParams) -> (result: CrcParams)
    requires
        8 < params.width <= 64,
        valid_poly(params.poly, params.width),
    ensures
        result.name == params.name,
        result.width == params.width,
        result.poly == params.poly,
        result.init == params.init,
        result.init_algorithm == params.init_algorithm,
        result.refin == params.refin,
        result.refout == params.refout,
        result.xorout == params.xorout,
        result.check == params.check,
        result.combine_keys matches Some(keys) && keys.valid_for(params.poly, params.width),
{
    let mut params = params;
    params.combine_keys = Some(CombineKeys::new(params.poly, params.width));
    params
}

/// The parameters of a catalogued CRC, with its keys for combining.
pub fn get_calculator_params(algorithm: CrcAlgorithm) -> (params: CrcParams)
    ensures
        params.well_formed(),
        params.combine_keys is Some,
        params.name == algorithm.entry().name,
        params.width == algorithm.entry().width,
        params.poly == algorithm.entry().poly,
        params.init == algorithm.entry().init,
        params.init_algorithm == algorithm.entry().init,
        params.refin == algorithm.entry().reflected,
        params.refout == algorithm.entry().reflected,
        params.xorout == algorithm.entry().xorout,
        params.check == algorithm.entry().check,
{
    proof {
        lemma2_to64();
        lemma_pow2_64();
    }
    let params = match algorithm {
        CrcAlgorithm::Crc32IsoHdlc => CrcParams::new(
            "CRC-32/ISO-HDLC",
            32,
            0x04c11db7,
            0xffff_ffff,
            true,
            0xffff_ffff,
            0xcbf4_3926,
        ),
        CrcAlgorithm::Crc32Iscsi => CrcParams::new(
            "CRC-32/ISCSI",
            32,
            0x1edc6f41,
            0xffff_ffff,
            true,
            0xffff_ffff,
            0xe306_9283,
        ),
        CrcAlgorithm::Crc32Bzip2 => CrcParams::new(
            "CRC-32/BZIP2",
            32,
            0x04c11db7,
            0xffff_ffff,
            false,
            0xffff_ffff,
            0xfc89_1918,
        ),
        CrcAlgorithm::Crc64Nvme => CrcParams::new(
            "CRC-64/NVME",
            64,
            0xad93d235_94c93659,
            0xffff_ffff_ffff_ffff,
            true,
            0xffff_ffff_ffff_ffff,
            0xae8b_1486_0a79_9888,
        ),
        CrcAlgorithm::Crc64Xz => CrcParams::new(
            "CRC-64/XZ",
            64,
            0x42f0e1eb_a9ea3693,
            0xffff_ffff_ffff_ffff,
            true,
            0xffff_ffff_ffff_ffff,
            0x995d_c9bb_df19_39fa,
        ),
        CrcAlgorithm::Crc64Redis => CrcParams::new(
            "CRC-64/REDIS",
            64,
            0xad93d235_94c935a9,
            0,
            true,
            0,
            0xe9c6_d914_c4b8_d9ca,
        ),
    };
    prepared(params)
}

} // verus!
