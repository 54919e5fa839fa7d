//! Keyed hash interface.
//!
//! The table maps keys to bins through a keyed pseudorandom function.
//! The digest itself is computed by an outside library and is only named
//! here, never restated: every property the table needs follows from the
//! digest being a fixed-width function of the key material and the message
//! alone. The reduction of a digest to a bin index is this crate's own
//! arithmetic and is verified against that name.

use hmac::{Hmac, Mac};
use sha2::Sha256;
use vstd::prelude::*;

verus! {

/// A 256-bit digest.
pub type Digest = [u8; 32];

/// The digest that [`prf`] returns for the given key material and message.
pub uninterp spec fn prf_of(key: Seq<u8>, data: Seq<u8>) -> Seq<u8>;

/// The low 16 bits of a digest, read little-endian.
pub open spec fn digest_low16(s: Seq<u8>) -> u16
    recommends
        s.len() >= 2,
{
    (s[0] + s[1] * 256) as u16
}

/// The bin index that the keyed hash assigns: the digest's low 16 bits
/// reduced modulo the bin count `b`.
pub open spec fn bin_index_of(key: Seq<u8>, data: Seq<u8>, b: u16) -> u16
    recommends
        b > 0,
{
    (digest_low16(prf_of(key, data)) % b) as u16
}

/// Keyed PRF: HMAC-SHA256 over `data` under `key`.
///
/// Relies on the hmac crate's `Hmac<Sha256>`: the digest is a deterministic
/// function of `key` and `data` alone, 32 bytes wide. `new_from_slice`
/// accepts a key slice of any length (short keys are padded, long keys are
/// hashed first), so it never fails.
#[verifier::external_body]
pub fn prf(key: &[u8], data: &[u8]) -> (r: Digest)
    ensures
        r@ == prf_of(key@, data@),
{
    let mut mac = <Hmac<Sha256> as Mac>::new_from_slice(key).unwrap();
    mac.update(data);
    mac.finalize().into_bytes().into()
}

/// Keyed PRF reduced to an integer in `[0, b)`.
///
/// The small statistical bias of the modulo reduction for a bin count that
/// is not a power of two is accepted; it only skews the bin balance a
/// little.
pub fn prf_int(key: &[u8], data: &[u8], b: u16) -> (r: u16)
    requires
        b > 0,
    ensures
        r == bin_index_of(key@, data@, b),
        r < b,
{
    let d = prf(key, data);
    let lo: u16 = d[0] as u16 + (d[1] as u16) * 256;
    lo % b
}

} // verus!
