use vstd::prelude::*;
use crate::hashing::{hash_bytes, sha256_of};

verus! {

/// Byte-for-byte equality of two slices.
fn bytes_eq(a: &[u8], b: &[u8]) -> (r: bool)
    ensures
        r == (a@ == b@),
{
    if a.len() != b.len() {
        return false;
    }
    let mut i: usize = 0;
    while i < a.len()
        invariant
            a@.len() == b@.len(),
            i <= a@.len(),
            forall|j: int| 0 <= j < i ==> a@[j] == b@[j],
        decreases a@.len() - i,
    {
        if a[i] != b[i] {
            return false;
        }
        i = i + 1;
    }
    proof {
        assert(a@ =~= b@);
    }
    true
}

/// Whether two files' contents count as identical: their digests agree.
/// Mirrors whole-file comparison by hashing both byte streams and comparing
/// the two digests.
pub fn compare_files(content1: &[u8], content2: &[u8]) -> (r: bool)
    ensures
        r == (sha256_of(content1@) == sha256_of(content2@)),
{
    let hash1 = hash_bytes(content1);
    let hash2 = hash_bytes(content2);
    bytes_eq(hash1.as_slice(), hash2.as_slice())
}

} // verus!
