//! The fingerprinter: a deterministic, collision-resistant mapping from an
//! arbitrary byte range to a fixed-width 512-byte digest.

use vstd::prelude::*;

verus! {

/// The 512-byte extended digest that the fingerprinter assigns to a byte
/// sequence. The digest is a pure function of the bytes: identical input
/// bytes always receive the identical digest. Nothing is assumed about
/// distinct inputs; that distinct contents receive distinct digests is the
/// accepted approximation behind content-addressed grouping, not a fact the
/// proofs rely on.
pub uninterp spec fn digest_of(bytes: Seq<u8>) -> Seq<u8>;

/// Relies on blake3's `Hasher::update` and `Hasher::finalize_xof` together
/// with `OutputReader::fill`: the extended output is a pure function of the
/// hashed input bytes, and `fill` writes exactly the 512 bytes requested.
#[verifier::external_body]
pub(crate) fn hash(data: &[u8]) -> (r: Vec<u8>)
    ensures
        r@ == digest_of(data@),
        r@.len() == 512,
{
    let mut hasher = blake3::Hasher::new();
    hasher.update(data);
    let mut reader = hasher.finalize_xof();
    let mut out = vec![0u8; 512];
    reader.fill(&mut out);
    out
}

} // verus!
