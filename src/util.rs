use vstd::prelude::*;

verus! {

/// Compares two byte strings. Unequal lengths answer at once; otherwise every byte pair is
/// folded into one accumulator, with no early exit, so the time taken does not depend on
/// where the first difference lies.
pub fn eq(a: &[u8], b: &[u8]) -> (r: bool)
    ensures
        r == (a@ == b@),
{
    if a.len() != b.len() {
        return false;
    }
    let mut d: u8 = 0;
    let mut i: usize = 0;
    while i < a.len()
        invariant
            i <= a@.len(),
            a@.len() == b@.len(),
            (d == 0) == (forall|k: int| 0 <= k < i ==> a@[k] == b@[k]),
        decreases a@.len() - i,
    {
        let x = a[i];
        let y = b[i];
        assert((d | (x ^ y)) == 0 <==> (d == 0 && x == y)) by (bit_vector);
        d = d | (x ^ y);
        i = i + 1;
    }
    assert(d == 0 ==> a@ =~= b@);
    d == 0
}

} // verus!
