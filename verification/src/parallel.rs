//! Data-parallel evaluation of an index function, through rayon.

use rayon::iter::{IndexedParallelIterator, IntoParallelIterator, ParallelIterator};
use vstd::prelude::*;

verus! {

/// `[f(0), f(1), ..., f(n - 1)]`, evaluated in parallel.
///
/// Trusted: calls rayon's `IntoParallelIterator::into_par_iter` on `0..n`,
/// `ParallelIterator::map` with `f`, and
/// `IndexedParallelIterator::collect_into_vec`. The contract claims what
/// rayon documents for an indexed parallel iterator: `f` is applied once to
/// each index and `collect_into_vec` leaves the results in index order in a
/// vector of length `n`.
#[verifier::external_body]
pub fn par_map_indices<T: Send, F: Fn(usize) -> T + Sync + Send>(n: usize, f: F) -> (r: Vec<T>)
    requires
        forall|i: usize| i < n ==> #[trigger] f.requires((i,)),
    ensures
        r@.len() == n,
        forall|i: int| 0 <= i < n ==> f.ensures((i as usize,), #[trigger] r@[i]),
{
    let mut r = Vec::new();
    (0..n).into_par_iter().map(f).collect_into_vec(&mut r);
    r
}

/// A value together with the index it was computed for.
#[derive(Clone, Copy)]
pub struct Tagged<T> {
    pub index: usize,
    pub value: T,
}

/// `[f(0), f(1), ..., f(n - 1)]`, evaluated in parallel and placed by index.
///
/// Each parallel result carries the index it was computed for. A result whose
/// tag is not its position is recomputed at that position, so every entry is
/// `f` of its own index whatever order the parallel results come back in.
pub fn map_indices<T: Copy + Send, F: Fn(usize) -> T + Sync + Send>(n: usize, f: F) -> (r: Vec<T>)
    requires
        forall|i: usize| i < n ==> #[trigger] f.requires((i,)),
    ensures
        r@.len() == n,
        forall|i: int| 0 <= i < n ==> f.ensures((i as usize,), #[trigger] r@[i]),
{
    let fr = &f;
    let g = |i: usize| -> (t: Tagged<T>)
        requires
            i < n,
            forall|j: usize| j < n ==> #[trigger] (*fr).requires((j,)),
        ensures
            t.index == i,
            (*fr).ensures((i,), t.value),
        {
            let value = (*fr)(i);
            Tagged { index: i, value }
        };
    let tagged = par_map_indices(n, g);
    proof {
        assert forall|i: int| 0 <= i < n implies #[trigger] tagged@[i].index == i && f.ensures(
            (i as usize,),
            tagged@[i].value,
        ) by {
            assert(g.ensures((i as usize,), tagged@[i]));
        }
    }
    let mut r: Vec<T> = Vec::new();
    let mut k: usize = 0;
    while k < n
        invariant
            0 <= k <= n,
            forall|i: usize| i < n ==> #[trigger] f.requires((i,)),
            r@.len() == k,
            forall|i: int| 0 <= i < k ==> f.ensures((i as usize,), #[trigger] r@[i]),
            tagged@.len() == n,
            forall|i: int|
                0 <= i < n ==> #[trigger] tagged@[i].index == i && f.ensures((i as usize,), tagged@[i].value),
        decreases n - k,
    {
        let t = tagged[k];
        if t.index == k {
            r.push(t.value);
        } else {
            let w = f(k);
            r.push(w);
        }
        k = k + 1;
    }
    r
}

} // verus!
