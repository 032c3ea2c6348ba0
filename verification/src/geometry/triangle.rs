//! Triangles as index triples into a caller-owned vertex array. Regrouping a
//! flat index list into triples is exact and is verified here; fetching and
//! intersecting the floating-point vertices stays with the caller.

use vstd::prelude::*;

verus! {

#[derive(Debug, Clone, Copy)]
pub struct Triangle {
    pub indices: [u32; 3],
}

/// Groups a flat index list, three entries per triangle, in order.
pub fn triangles_from_indices(indices: &Vec<u32>) -> (r: Vec<Triangle>)
    requires
        indices@.len() % 3 == 0,
    ensures
        r@.len() * 3 == indices@.len(),
        forall|t: int| 0 <= t < r@.len() ==> r@[t].indices@
            == seq![indices@[3 * t], indices@[3 * t + 1], indices@[3 * t + 2]],
{
    let total = indices.len();
    let n = total / 3;
    proof {
        vstd::arithmetic::div_mod::lemma_fundamental_div_mod(indices@.len() as int, 3);
    }
    let mut r: Vec<Triangle> = Vec::new();
    for t in 0..n
        invariant
            total == indices@.len(),
            n == indices@.len() / 3,
            indices@.len() % 3 == 0,
            indices@.len() == n * 3,
            r@.len() == t,
            forall|k: int| 0 <= k < t ==> r@[k].indices@
                == seq![indices@[3 * k], indices@[3 * k + 1], indices@[3 * k + 2]],
    {
        let base = 3 * t;
        let tri = Triangle { indices: [indices[base], indices[base + 1], indices[base + 2]] };
        proof {
            assert(tri.indices@ =~= seq![
                indices@[3 * t as int],
                indices@[3 * t as int + 1],
                indices@[3 * t as int + 2],
            ]);
        }
        r.push(tri);
    }
    r
}

} // verus!
