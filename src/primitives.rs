use vstd::prelude::*;

verus! {

/// A Blake2b digest: identifies blocks, transactions and epochs.
pub type Blake2bHash = [u8; 32];

/// An account address.
pub type Address = [u8; 20];

/// Byte-wise equality of two fixed-size byte strings.
pub fn bytes_eq<const N: usize>(a: &[u8; N], b: &[u8; N]) -> (r: bool)
    ensures
        r == (*a == *b),
{
    let mut i: usize = 0;
    while i < N
        invariant
            i <= N,
            N == a@.len(),
            N == b@.len(),
            forall|j: int| 0 <= j < i ==> a@[j] == b@[j],
        decreases N - i,
    {
        if a[i] != b[i] {
            proof {
                assert(a@ != b@);
            }
            return false;
        }
        i = i + 1;
    }
    proof {
        assert(a@ =~= b@);
        vstd::array::axiom_array_ext_equal(*a, *b);
    }
    true
}

} // verus!
