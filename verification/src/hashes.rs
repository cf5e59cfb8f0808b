//! The hashes that identify generated code: SHA3-256 digests and SHAKE128 file
//! tags, from the `sha3` crate.
use vstd::prelude::*;
use sha3::Digest;
use sha3::digest::{ExtendableOutput, Update, XofReader};

verus! {

/// The SHA3-256 digest of the bytes, as `sha3::Sha3_256` computes it.
pub uninterp spec fn sha3_256(data: Seq<u8>) -> Seq<u8>;

/// The first eight bytes that SHAKE128 reads out for the bytes, as
/// `sha3::Shake128` computes them.
pub uninterp spec fn shake128_8(data: Seq<u8>) -> Seq<u8>;

/// `Sha3_256::digest` from `sha3`: the digest of the bytes, which is 32 bytes
/// long. Feeding the hasher several pieces in turn gives the digest of their
/// concatenation, so one call on the concatenation stands for a run of updates.
#[verifier::external_body]
pub(crate) fn sha3_256_digest(data: &[u8]) -> (r: Vec<u8>)
    ensures
        r@ == sha3_256(data@),
        r@.len() == 32,
{
    sha3::Sha3_256::digest(data).to_vec()
}

/// `Shake128` from `sha3`: updated with the bytes, finalized as an extendable
/// output, of which eight bytes are read.
#[verifier::external_body]
pub(crate) fn shake128_tag(data: &[u8]) -> (r: Vec<u8>)
    ensures
        r@ == shake128_8(data@),
        r@.len() == 8,
{
    let mut hasher = sha3::Shake128::default();
    hasher.update(data);
    let mut reader = hasher.finalize_xof();
    let mut out = [0u8; 8];
    reader.read(&mut out);
    out.to_vec()
}

/// Appends bytes to a buffer.
pub fn push_bytes(buf: &mut Vec<u8>, bytes: &[u8])
    ensures
        final(buf)@ == old(buf)@ + bytes@,
{
    let mut i: usize = 0;
    while i < bytes.len()
        invariant
            i <= bytes@.len(),
            buf@ == old(buf)@ + bytes@.take(i as int),
        decreases bytes@.len() - i,
    {
        buf.push(bytes[i]);
        assert(bytes@.take(i + 1) =~= bytes@.take(i as int).push(bytes@[i as int]));
        i = i + 1;
    }
    assert(bytes@.take(bytes@.len() as int) =~= bytes@);
}

} // verus!
