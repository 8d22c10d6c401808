use vstd::prelude::*;

verus! {

/// The CRC-16/USB checksum of a byte sequence.
pub uninterp spec fn crc16_usb(bytes: Seq<u8>) -> u16;

/// The CRC-16/IBM-SDLC (X-25) checksum of a byte sequence.
pub uninterp spec fn crc16_ibm_sdlc(bytes: Seq<u8>) -> u16;

/// Relies on `crc::Crc::<u16>::checksum` with `crc::CRC_16_USB`: the result
/// depends on the bytes alone.
#[verifier::external_body]
pub(crate) fn checksum_usb(bytes: &[u8]) -> (r: u16)
    ensures
        r == crc16_usb(bytes@),
{
    crc::Crc::<u16>::new(&crc::CRC_16_USB).checksum(bytes)
}

/// Relies on `crc::Crc::<u16>::checksum` with `crc::CRC_16_IBM_SDLC`: the
/// result depends on the bytes alone.
#[verifier::external_body]
pub(crate) fn checksum_ibm_sdlc(bytes: &[u8]) -> (r: u16)
    ensures
        r == crc16_ibm_sdlc(bytes@),
{
    crc::Crc::<u16>::new(&crc::CRC_16_IBM_SDLC).checksum(bytes)
}

/// Relies on `memcmp::Memcmp::memcmp` for byte slices: true exactly when
/// both slices have the same length and the same bytes.
#[verifier::external_body]
pub(crate) fn same_bytes(a: &[u8], b: &[u8]) -> (r: bool)
    ensures
        r == (a@ == b@),
{
    memcmp::Memcmp::memcmp(a, b)
}

} // verus!
