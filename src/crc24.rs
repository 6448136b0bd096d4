//! The CRC-24 checksum that guards every chunk of a database file.
use vstd::prelude::*;
use vstd::arithmetic::power2::pow2;

verus! {

/// A CRC-24, held in the low 24 bits of a word.
pub type Crc24 = u32;

/// The generator polynomial.
pub const CRC24_POLY: u32 = 0x00BD80DE;

/// The register's value before the first byte.
pub const CRC24_INIT: u32 = 0x00FFFFFF;

/// What the register is XORed with at the end.
pub const CRC24_XOR: u32 = 0x00000000;

/// Whether bytes and result are bit-reflected.
pub const CRC24_REFLECT: bool = false;

/// The width of the checksum in bits.
pub const CRC24_BITS: u8 = 24;

/// The CRC of `data` with the given width, polynomial, initial value, final XOR and reflection.
pub uninterp spec fn crc_u32_of(
    poly: u32,
    bits: u8,
    initial: u32,
    final_xor: u32,
    reflect: bool,
    data: Seq<u8>,
) -> u32;

/// Relies on `crc_any::CRCu32` (`create_crc`, `digest`, `get_crc`): the checksum of `data` under
/// the given parameters, masked to `bits` bits.
#[verifier::external_body]
fn crc_u32(poly: u32, bits: u8, initial: u32, final_xor: u32, reflect: bool, data: &[u8]) -> (r:
    u32)
    requires
        0 < bits <= 32,
    ensures
        r == crc_u32_of(poly, bits, initial, final_xor, reflect, data@),
        (r as nat) < pow2(bits as nat),
{
    let mut crc = crc_any::CRCu32::create_crc(poly, bits, initial, final_xor, reflect);
    crc.digest(data);
    crc.get_crc()
}

/// The database's CRC-24 of `data`.
pub open spec fn crc24_of(data: Seq<u8>) -> u32 {
    crc_u32_of(CRC24_POLY, CRC24_BITS, CRC24_INIT, CRC24_XOR, CRC24_REFLECT, data)
}

/// The three big-endian bytes of the low 24 bits of `c`.
pub open spec fn crc24_bytes(c: u32) -> Seq<u8> {
    seq![(c >> 16u32) as u8, (c >> 8u32) as u8, c as u8]
}

/// Computes the database's CRC-24 of `data`.
pub fn compute(data: &[u8]) -> (r: Crc24)
    ensures
        r == crc24_of(data@),
        r < 0x100_0000,
{
    let r = crc_u32(CRC24_POLY, CRC24_BITS, CRC24_INIT, CRC24_XOR, CRC24_REFLECT, data);
    proof {
        vstd::arithmetic::power2::lemma2_to64();
    }
    r
}

/// The three big-endian bytes of a CRC-24.
pub fn to_be_bytes(crc: Crc24) -> (r: [u8; 3])
    ensures
        r@ == crc24_bytes(crc),
{
    let r = [(crc >> 16u32) as u8, (crc >> 8u32) as u8, crc as u8];
    assert(r@ =~= crc24_bytes(crc));
    r
}

} // verus!
