//! The CRC-24 of a chunk as a value.
use vstd::prelude::*;
use crate::crc24::{compute, crc24_of, crc24_bytes};

verus! {

/// The CRC-24 of some bytes.
#[derive(Debug, Clone, Copy, PartialEq, Eq, Structural)]
pub struct ApeCrc24 {
    crc24: u32,
}

impl View for ApeCrc24 {
    type V = u32;

    closed spec fn view(&self) -> u32 {
        self.crc24
    }
}

impl ApeCrc24 {
    /// The CRC-24 of `data`.
    pub fn new(data: &[u8]) -> (r: ApeCrc24)
        ensures
            r@ == crc24_of(data@),
            r@ < 0x100_0000,
    {
        ApeCrc24 { crc24: compute(data) }
    }

    /// The three big-endian bytes of the CRC-24.
    pub fn to_be_bytes(&self) -> (r: [u8; 3])
        ensures
            r@ == crc24_bytes(self@),
    {
        crate::crc24::to_be_bytes(self.crc24)
    }

    /// Whether `data`, which ends with its own CRC-24, checks out: its CRC-24 is zero.
    pub fn verify(data: &[u8]) -> (r: bool)
        ensures
            r == (crc24_of(data@) == 0),
    {
        let crc24 = ApeCrc24::new(data);
        crc24.crc24 == 0
    }
}

} // verus!
