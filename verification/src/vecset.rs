//! Duplicate-free vectors of references, used as small sets.

use vstd::prelude::*;
use crate::reference::Reference;

verus! {

pub fn contains_ref(v: &Vec<Reference>, x: Reference) -> (b: bool)
    ensures
        b == v@.contains(x),
{
    let n = v.len();
    let mut i: usize = 0;
    while i < n
        invariant
            i <= n == v@.len(),
            forall|j: int| 0 <= j < i ==> v@[j] != x,
        decreases n - i,
    {
        if v[i] == x {
            return true;
        }
        i = i + 1;
    }
    false
}

/// Appends `x` unless it is already present.
pub fn insert_ref(v: &mut Vec<Reference>, x: Reference)
    requires
        old(v)@.no_duplicates(),
    ensures
        final(v)@.no_duplicates(),
        forall|y: Reference|
            #![trigger final(v)@.contains(y)]
            #![trigger old(v)@.contains(y)]
            final(v)@.contains(y) <==> old(v)@.contains(y) || y == x,
{
    let ghost v0 = v@;
    let already = contains_ref(v, x);
    if !already {
        v.push(x);
        proof {
            assert forall|y: Reference| #[trigger] v@.contains(y) implies v0.contains(y) || y
                == x by {
                let j = choose|j: int| 0 <= j < v@.len() && v@[j] == y;
                if j < v@.len() - 1 {
                    assert(v0[j] == y);
                }
            }
            assert forall|y: Reference| v0.contains(y) || y == x implies #[trigger] v@.contains(
                y,
            ) by {
                if v0.contains(y) {
                    let j = choose|j: int| 0 <= j < v0.len() && v0[j] == y;
                    assert(v@[j] == y);
                } else {
                    assert(v@[v@.len() - 1] == y);
                }
            }
        }
    }
}

/// Removes `x` if it is present.
pub fn remove_ref(v: &mut Vec<Reference>, x: Reference)
    requires
        old(v)@.no_duplicates(),
    ensures
        final(v)@.no_duplicates(),
        forall|y: Reference|
            #![trigger final(v)@.contains(y)]
            #![trigger old(v)@.contains(y)]
            final(v)@.contains(y) <==> old(v)@.contains(y) && y != x,
{
    let ghost v0 = v@;
    let n = v.len();
    let mut i: usize = 0;
    while i < n
        invariant
            i <= n == v@.len(),
            v@ == v0,
            v0 == old(v)@,
            v0.no_duplicates(),
            forall|j: int| 0 <= j < i ==> v0[j] != x,
        decreases n - i,
    {
        if v[i] == x {
            v.remove(i);
            proof {
                assert forall|y: Reference| #[trigger] v@.contains(y) implies v0.contains(y) && y
                    != x by {
                    let j = choose|j: int| 0 <= j < v@.len() && v@[j] == y;
                    if j < i {
                        assert(v0[j] == y);
                    } else {
                        assert(v0[j + 1] == y);
                    }
                }
                assert forall|y: Reference| v0.contains(y) && y != x implies #[trigger] v@.contains(
                    y,
                ) by {
                    let j = choose|j: int| 0 <= j < v0.len() && v0[j] == y;
                    if j < i {
                        assert(v@[j] == y);
                    } else {
                        assert(v0[i as int] == x);
                        assert(j != i);
                        assert(v@[j - 1] == y);
                    }
                }
                assert forall|p: int, q: int| 0 <= p < q < v@.len() implies v@[p] != v@[q] by {
                    if q < i {
                        assert(v@[p] == v0[p] && v@[q] == v0[q]);
                    } else if p < i {
                        assert(v@[p] == v0[p] && v@[q] == v0[q + 1]);
                    } else {
                        assert(v@[p] == v0[p + 1] && v@[q] == v0[q + 1]);
                    }
                }
            }
            return ;
        }
        i = i + 1;
    }
}

/// Copies a vector of references.
pub fn copy_refs(v: &Vec<Reference>) -> (r: Vec<Reference>)
    ensures
        r@ == v@,
{
    let n = v.len();
    let mut r: Vec<Reference> = Vec::new();
    let mut i: usize = 0;
    while i < n
        invariant
            i <= n == v@.len(),
            r@ == v@.take(i as int),
        decreases n - i,
    {
        r.push(v[i]);
        i = i + 1;
        proof {
            assert(r@ =~= v@.take(i as int));
        }
    }
    proof {
        assert(v@.take(n as int) =~= v@);
    }
    r
}

} // verus!
