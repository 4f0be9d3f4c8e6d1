//! Checking downloaded content against the SHA-1 hash it was published
//! with.
use vstd::prelude::*;

verus! {

/// The SHA-1 digest of `data`, as the `sha1` crate computes it.
pub uninterp spec fn sha1_digest(data: Seq<u8>) -> Seq<u8>;

/// `<sha1::Sha1 as Digest>::digest`: the 20-byte digest of `data`; the
/// contract claims only that it is a function of the bytes alone.
#[verifier::external_body]
fn sha1_of(data: &[u8]) -> (r: [u8; 20])
    ensures
        r@ == sha1_digest(data@),
{
    <sha1::Sha1 as sha1::Digest>::digest(data).into()
}

/// The two hashes are the same bytes.
pub fn hash_matches(expected_hash: &[u8; 20], actual_hash: &[u8; 20]) -> (r: bool)
    ensures
        r == (expected_hash@ == actual_hash@),
{
    let mut i: usize = 0;
    while i < 20
        invariant
            i <= 20,
            expected_hash@.len() == 20,
            actual_hash@.len() == 20,
            forall|k: int| 0 <= k < i ==> expected_hash@[k] == actual_hash@[k],
        decreases 20 - i,
    {
        if expected_hash[i] != actual_hash[i] {
            return false;
        }
        i = i + 1;
    }
    assert(expected_hash@ == actual_hash@);
    true
}

/// Whether `content` hashes to `expected_hash` under SHA-1.
pub fn check_sha1_hash(content: &[u8], expected_hash: [u8; 20]) -> (r: bool)
    ensures
        r == (expected_hash@ == sha1_digest(content@)),
{
    let actual_hash = sha1_of(content);
    hash_matches(&expected_hash, &actual_hash)
}

} // verus!
