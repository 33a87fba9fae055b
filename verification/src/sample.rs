//! Row sampling support: the deterministic half of "pick n random rows".
//! The caller draws a shuffled index list however it likes; this module
//! turns its prefix into the sorted index set the columnar reader needs.

use vstd::prelude::*;

use crate::coo::pair_le;
use crate::coo::ranked_prefix;

verus! {

/// No index occurs twice.
pub open spec fn distinct_indices(s: Seq<usize>) -> bool {
    forall|i: int, j: int| 0 <= i < j < s.len() ==> s[i] != s[j]
}

/// The first `n` entries of a shuffled index list, in ascending order: the
/// sample is exactly the prefix, sorted so that a reader can gather the
/// rows in one forward pass.
pub fn sample_indices(shuffled: &Vec<usize>, n: usize) -> (r: Vec<usize>)
    requires
        distinct_indices(shuffled@),
    ensures
        r@.len() == if n <= shuffled@.len() {
            n as int
        } else {
            shuffled@.len() as int
        },
        forall|i: int, j: int| 0 <= i < j < r@.len() ==> r@[i] < r@[j],
        forall|i: int| 0 <= i < r@.len() ==> shuffled@.take(r@.len() as int).contains(#[trigger] r@[i]),
        forall|i: int|
            0 <= i < r@.len() && i < n ==> r@.contains(#[trigger] shuffled@[i]),
{
    let cut = if n <= shuffled.len() {
        n
    } else {
        shuffled.len()
    };
    let mut pairs: Vec<(usize, usize)> = Vec::new();
    let mut i: usize = 0;
    while i < cut
        invariant
            i <= cut <= shuffled@.len(),
            distinct_indices(shuffled@),
            pairs@.len() == i,
            forall|q: int|
                0 <= q < i ==> #[trigger] pairs@[q] == (shuffled@[q], shuffled@[q]),
        decreases cut - i,
    {
        let v = shuffled[i];
        pairs.push((v, v));
        i = i + 1;
    }
    let ghost built = pairs@;
    proof {
        assert forall|q1: int, q2: int|
            0 <= q1 < q2 < built.len() implies built[q1].1 != built[q2].1 by {
            assert(built[q1] == (shuffled@[q1], shuffled@[q1]));
            assert(built[q2] == (shuffled@[q2], shuffled@[q2]));
        }
    }
    ranked_prefix(&mut pairs, cut);
    let mut out: Vec<usize> = Vec::new();
    let mut q: usize = 0;
    while q < pairs.len()
        invariant
            q <= pairs@.len(),
            out@.len() == q,
            cut <= shuffled@.len(),
            built.len() == cut,
            distinct_indices(shuffled@),
            forall|q0: int|
                0 <= q0 < cut ==> #[trigger] built[q0] == (shuffled@[q0], shuffled@[q0]),
            forall|j: int| 0 <= j < pairs@.len() ==> built.contains(#[trigger] pairs@[j]),
            forall|j1: int, j2: int|
                0 <= j1 < j2 < pairs@.len() ==> pair_le(pairs@[j1], pairs@[j2]) && pairs@[j1].1
                    != pairs@[j2].1,
            forall|j: int| 0 <= j < q ==> #[trigger] out@[j] == pairs@[j].1,
        decreases pairs@.len() - q,
    {
        out.push(pairs[q].1);
        q = q + 1;
    }
    proof {
        // each kept pair is one of the prefix pairs, so both its halves
        // agree and name a prefix entry
        assert forall|j: int|
            0 <= j < out@.len() implies shuffled@.take(out@.len() as int).contains(
            #[trigger] out@[j],
        ) && pairs@[j].0 == pairs@[j].1 by {
            assert(built.contains(pairs@[j]));
            let w = choose|w: int| 0 <= w < built.len() && built[w] == pairs@[j];
            assert(built[w] == (shuffled@[w], shuffled@[w]));
            assert(shuffled@.take(out@.len() as int)[w] == shuffled@[w]);
        }
        assert forall|i0: int, j0: int|
            0 <= i0 < j0 < out@.len() implies out@[i0] < out@[j0] by {
            assert(pair_le(pairs@[i0], pairs@[j0]));
            assert(pairs@[i0].0 == pairs@[i0].1 && pairs@[j0].0 == pairs@[j0].1);
            assert(pairs@[i0].1 != pairs@[j0].1);
        }
        // nothing of the prefix is dropped: the cut covers every pair
        assert forall|i0: int|
            0 <= i0 < out@.len() && i0 < n implies out@.contains(#[trigger] shuffled@[i0]) by {
            assert(built[i0] == (shuffled@[i0], shuffled@[i0]));
            assert(built.contains((shuffled@[i0], shuffled@[i0])));
            assert(pairs@.contains((shuffled@[i0], shuffled@[i0])));
            let q0 = choose|q0: int|
                0 <= q0 < pairs@.len() && pairs@[q0] == (shuffled@[i0], shuffled@[i0]);
            assert(out@[q0] == shuffled@[i0]);
        }
    }
    out
}

} // verus!
