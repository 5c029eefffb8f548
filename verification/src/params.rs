//! The parameters that name a CRC.
use vstd::arithmetic::power2::*;
use vstd::prelude::*;

use crate::bits::reversed;
use crate::combine::CombineKeys;
use crate::field::valid_poly;

verus! {

/// The parameters of a CRC, after Ross Williams.
///
/// Register values (`init`, `init_algorithm`, `xorout`, and CRCs themselves) are written in the
/// bit order in which the CRC is reported: reflected when `refin` and `refout` are set.
#[derive(Debug, Clone, Copy)]
pub struct CrcParams {
    /// The catalogue name.
    pub name: &'static str,
    /// The number of bits in the CRC.
    pub width: u8,
    /// The polynomial in normal form, without its leading term.
    pub poly: u64,
    /// The register that a computation starts from.
    pub init: u64,
    /// The register that the algorithm prescribes to start from.
    pub init_algorithm: u64,
    /// Whether message bytes enter the register least significant bit first.
    pub refin: bool,
    /// Whether the CRC is reported least significant bit first.
    pub refout: bool,
    /// What is exclusive-ored into the register to give the CRC.
    pub xorout: u64,
    /// The CRC of the nine bytes `123456789`.
    pub check: u64,
    /// The keys for combining, where they have been prepared.
    pub combine_keys: Option<CombineKeys>,
}

impl CrcParams {
    /// The polynomial is one that keys for combining exist for, and keys that have been prepared
    /// belong to it.
    pub open spec fn combinable(self) -> bool {
        &&& 8 < self.width <= 64
        &&& valid_poly(self.poly, self.width)
        &&& self.combine_keys matches Some(keys) ==> keys.valid_for(self.poly, self.width)
    }

    /// Every value has the width of the CRC, and input and output agree on the bit order.
    pub open spec fn well_formed(self) -> bool {
        &&& self.combinable()
        &&& self.init < pow2(self.width as nat)
        &&& self.init_algorithm < pow2(self.width as nat)
        &&& self.xorout < pow2(self.width as nat)
        &&& self.refin == self.refout
    }

    /// A register value, brought from the reported bit order to normal form or back.
    pub open spec fn turned(self, value: nat) -> nat {
        if self.refin {
            reversed(value, self.width as nat)
        } else {
            value
        }
    }

    /// Parameters for a custom polynomial, which carry no prepared keys.
    pub fn new(
        name: &'static str,
        width: u8,
        poly: u64,
        init: u64,
        reflected: bool,
        xorout: u64,
        check: u64,
    ) -> (params: CrcParams)
        ensures
            params.name == name,
            params.width == width,
            params.poly == poly,
            params.init == init,
            params.init_algorithm == init,
            params.refin == reflected,
            params.refout == reflected,
            params.xorout == xorout,
            params.check == check,
            params.combine_keys is None,
    {
        CrcParams {
            name,
            width,
            poly,
            init,
            init_algorithm: init,
            refin: reflected,
            refout: reflected,
            xorout,
            check,
            combine_keys: None,
        }
    }
}

} // verus!
