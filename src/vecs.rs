//! Moving the items of a vector in order.
use vstd::prelude::*;

verus! {

/// The sequence `v` backwards
pub open spec fn backwards<T>(v: Seq<T>) -> Seq<T> {
    Seq::new(v.len(), |i: int| v[v.len() - 1 - i])
}

pub fn reversed<T>(v: Vec<T>) -> (r: Vec<T>)
    ensures
        r@ == backwards(v@),
{
    let mut v = v;
    let mut r: Vec<T> = Vec::new();
    let ghost orig = v@;
    while v.len() > 0
        invariant
            v@ == orig.take(v@.len() as int),
            r@.len() + v@.len() == orig.len(),
            forall|i: int| 0 <= i < r@.len() ==> r@[i] == orig[orig.len() - 1 - i],
        decreases v@.len(),
    {
        let ghost n = v@.len() as int;
        let t = v.pop().unwrap();
        r.push(t);
        proof {
            assert(v@ =~= orig.take(n - 1));
        }
    }
    proof {
        assert(r@ =~= backwards(orig));
    }
    r
}

} // verus!
