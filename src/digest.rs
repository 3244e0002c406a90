//! The fixed 256-bit digest used for leaves and for parent nodes.
use sha2::Digest;
use vstd::prelude::*;

verus! {

/// Length in bytes of every digest.
pub const DIGEST_LEN: usize = 32;

/// The SHA-256 digest of a byte sequence.
pub uninterp spec fn sha256_of(data: Seq<u8>) -> Seq<u8>;

/// Digest of the concatenation `left ‖ right`, the rule for parent nodes.
pub open spec fn combine_spec(left: Seq<u8>, right: Seq<u8>) -> Seq<u8> {
    sha256_of(left + right)
}

/// Relies on sha2::Sha256::digest: the result is the SHA-256 digest of the
/// input, a function of the bytes alone, always 32 bytes long.
#[verifier::external_body]
pub(crate) fn sha256(data: &[u8]) -> (r: Vec<u8>)
    ensures
        r@ == sha256_of(data@),
        r@.len() == DIGEST_LEN,
{
    sha2::Sha256::digest(data).to_vec()
}

/// Digest of a raw value, as stored in a leaf.
pub fn hash_value(data: &[u8]) -> (r: Vec<u8>)
    ensures
        r@ == sha256_of(data@),
        r@.len() == DIGEST_LEN,
{
    sha256(data)
}

/// Digest of `left ‖ right`, as stored in a parent node.
pub fn hash_pair(left: &[u8], right: &[u8]) -> (r: Vec<u8>)
    ensures
        r@ == combine_spec(left@, right@),
        r@.len() == DIGEST_LEN,
{
    let mut buf: Vec<u8> = Vec::new();
    let mut i: usize = 0;
    while i < left.len()
        invariant
            0 <= i <= left@.len(),
            buf@ == left@.subrange(0, i as int),
        decreases left@.len() - i,
    {
        buf.push(left[i]);
        i = i + 1;
    }
    let mut j: usize = 0;
    while j < right.len()
        invariant
            0 <= j <= right@.len(),
            buf@ == left@ + right@.subrange(0, j as int),
        decreases right@.len() - j,
    {
        buf.push(right[j]);
        j = j + 1;
    }
    assert(left@.subrange(0, left@.len() as int) == left@);
    assert(right@.subrange(0, right@.len() as int) == right@);
    sha256(buf.as_slice())
}

/// Byte-for-byte equality of two byte strings.
pub fn bytes_equal(a: &[u8], b: &[u8]) -> (r: bool)
    ensures
        r == (a@ == b@),
{
    if a.len() != b.len() {
        return false;
    }
    let mut i: usize = 0;
    while i < a.len()
        invariant
            a@.len() == b@.len(),
            0 <= i <= a@.len(),
            forall|k: int| 0 <= k < i ==> a@[k] == b@[k],
        decreases a@.len() - i,
    {
        if a[i] != b[i] {
            return false;
        }
        i = i + 1;
    }
    assert(a@ =~= b@);
    true
}

} // verus!
