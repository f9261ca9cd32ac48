//! CRC-16, computed by the `crc` crate.
use core::hash::Hasher;
use vstd::prelude::*;

verus! {

/// The polynomial of the checksum that a COBS frame can carry.
pub const CRC_POLYNOMIAL: u16 = 0x8408;

/// The type `crc::crc16::Digest`.
#[verifier::external_type_specification]
#[verifier::external_body]
pub struct ExDigest(crc::crc16::Digest);

/// What a `crc::crc16::Digest` holds: its polynomial, and the checksum of the
/// bytes so far.
pub uninterp spec fn digest_state(digest: crc::crc16::Digest) -> (u16, u16);

/// `value` divided bit by bit by the polynomial `poly`, low bit first.
pub open spec fn divided(poly: u16, value: u16, bits: nat) -> u16
    decreases bits,
{
    if bits == 0 {
        value
    } else {
        divided(
            poly,
            if value & 1 == 1 {
                (value >> 1) ^ poly
            } else {
                value >> 1
            },
            (bits - 1) as nat,
        )
    }
}

/// The checksum `value` continued over `bytes`: all its bits are turned over
/// before and after each byte is divided by the polynomial `poly`.
pub open spec fn checksum(poly: u16, value: u16, bytes: Seq<u8>) -> u16
    decreases bytes.len(),
{
    if bytes.len() == 0 {
        value
    } else {
        let before = !checksum(poly, value, bytes.drop_last());
        !(divided(poly, ((before as u8) ^ bytes.last()) as u16, 8) ^ (before >> 8))
    }
}

/// Continuing a checksum over one more byte.
pub proof fn lemma_one_more(poly: u16, value: u16, bytes: Seq<u8>)
    requires
        bytes.len() > 0,
    ensures
        checksum(poly, value, bytes) == checksum(
            poly,
            checksum(poly, value, bytes.drop_last()),
            seq![bytes.last()],
        ),
{
    let last = seq![bytes.last()];
    assert(last.drop_last() =~= Seq::empty());
    assert(last.last() == bytes.last());
    let before = checksum(poly, value, bytes.drop_last());
    assert(checksum(poly, before, last.drop_last()) == before);
}

/// Calls `crc::crc16::Digest::new`: the checksum of no bytes is 0.
#[verifier::external_body]
pub(crate) fn digest_new(poly: u16) -> (r: crc::crc16::Digest)
    ensures
        digest_state(r) == (poly, 0u16),
{
    crc::crc16::Digest::new(poly)
}

/// Calls `write` of `crc::crc16::Digest`: the [`checksum`] is continued over
/// `bytes`.
#[verifier::external_body]
pub(crate) fn digest_write(digest: &mut crc::crc16::Digest, bytes: &[u8])
    ensures
        ({
            let (poly, value) = digest_state(*old(digest));
            digest_state(*final(digest)) == (poly, checksum(poly, value, bytes@))
        }),
{
    Hasher::write(digest, bytes)
}

/// Calls `finish` of `crc::crc16::Digest`: the checksum of the bytes so far.
#[verifier::external_body]
pub(crate) fn digest_finish(digest: &crc::crc16::Digest) -> (r: u64)
    ensures
        r == digest_state(*digest).1,
{
    digest.finish()
}

/// The bytes of a checksum, low byte first.
pub open spec fn low_first(value: u16) -> Seq<u8> {
    seq![(value % 256) as u8, (value / 256) as u8]
}

/// Splits a checksum into its bytes, low byte first.
pub fn to_le_bytes(value: u16) -> (r: [u8; 2])
    ensures
        r@ == low_first(value),
        r[0] + 256 * r[1] == value,
{
    let r: [u8; 2] = [(value % 256) as u8, (value / 256) as u8];
    assert(r@ =~= low_first(value));
    r
}

} // verus!
