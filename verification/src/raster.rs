use vstd::prelude::*;

verus! {

/// Judges two encoded pixel buffers equivalent: exact byte-for-byte
/// equality, no tolerance. Both buffers come from deterministic renderings
/// of the same draw parameters, so any differing byte is a genuine
/// rendering discrepancy.
pub fn equivalent_rasters(a: &Vec<u8>, b: &Vec<u8>) -> (r: bool)
    ensures
        r == (a@ == b@),
{
    if a.len() != b.len() {
        return false;
    }
    let mut i: usize = 0;
    while i < a.len()
        invariant
            a@.len() == b@.len(),
            i <= a@.len(),
            forall|j: int| 0 <= j < i ==> a@[j] == b@[j],
        decreases a@.len() - i,
    {
        if a[i] != b[i] {
            return false;
        }
        i += 1;
    }
    proof {
        assert(a@ =~= b@);
    }
    true
}

} // verus!
