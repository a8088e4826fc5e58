//! The block digest: a SHA-1 fingerprint of a block's bytes.
use vstd::prelude::*;

verus! {

/// What SHA-1 yields for the given bytes.
pub uninterp spec fn sha1_of(b: Seq<u8>) -> Seq<u8>;

/// The 20-byte fingerprint of the given bytes.
pub open spec fn block_digest(b: Seq<u8>) -> Seq<u8> {
    Seq::new(20, |k: int| sha1_of(b)[k])
}

/// Relies on `sha1::Sha1::digest` (through the `Digest` trait): it returns
/// the SHA-1 of its input, an array of 20 bytes, which depends on the input alone.
#[verifier::external_body]
fn sha1_bytes(data: &[u8]) -> (r: Vec<u8>)
    ensures
        r@ == sha1_of(data@),
        r@ == block_digest(data@),
{
    <sha1::Sha1 as sha1::Digest>::digest(data).to_vec()
}

/// Digest of a block of bytes.
pub fn hash_block(data: &[u8]) -> (r: Vec<u8>)
    ensures
        r@ == block_digest(data@),
        r@.len() == crate::DIGEST_LEN,
{
    sha1_bytes(data)
}

/// Whether two digests hold the same bytes.
pub fn same_digest(a: &[u8], b: &[u8]) -> (r: bool)
    ensures
        r == (a@ == b@),
{
    if a.len() != b.len() {
        return false;
    }
    let mut i: usize = 0;
    while i < a.len()
        invariant
            a@.len() == b@.len(),
            0 <= i <= a@.len(),
            a@.subrange(0, i as int) == b@.subrange(0, i as int),
        decreases a@.len() - i,
    {
        if a[i] != b[i] {
            assert(a@[i as int] != b@[i as int]);
            return false;
        }
        assert(a@.subrange(0, i + 1) =~= a@.subrange(0, i as int).push(a@[i as int]));
        assert(b@.subrange(0, i + 1) =~= b@.subrange(0, i as int).push(b@[i as int]));
        i = i + 1;
    }
    assert(a@ =~= a@.subrange(0, i as int));
    assert(b@ =~= b@.subrange(0, i as int));
    true
}

/// Hashing is a function of the bytes alone: equal bytes give equal
/// digests, and every digest is 20 bytes long.
pub proof fn digest_is_deterministic(a: Seq<u8>, b: Seq<u8>)
    requires
        a == b,
    ensures
        block_digest(a) == block_digest(b),
        block_digest(a).len() == 20,
{
}

} // verus!
