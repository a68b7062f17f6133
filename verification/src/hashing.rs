use vstd::prelude::*;

verus! {

/// The SHA-256 digest of a byte sequence. The digest is a pure function of
/// the input bytes; its value is not axiomatized any further here.
pub uninterp spec fn sha256_of(data: Seq<u8>) -> [u8; 32];

/// The SHA-256 digest of a byte sequence, as a byte sequence.
pub open spec fn sha256_seq(data: Seq<u8>) -> Seq<u8> {
    sha256_of(data)@
}

/// Relies on `sha2::Sha256` (RustCrypto): returns the standard 32-byte
/// SHA-256 digest of `data`, which depends on the input bytes alone.
#[verifier::external_body]
pub(crate) fn sha256(data: &[u8]) -> (r: [u8; 32])
    ensures
        r == sha256_of(data@),
{
    let digest = <sha2::Sha256 as sha2::Digest>::digest(data);
    let mut out = [0u8; 32];
    out.copy_from_slice(&digest);
    out
}

} // verus!
