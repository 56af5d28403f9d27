use vstd::prelude::*;
use crate::shared::Point;

verus! {

/// Successor of position `j` on a closed tour of `n` vertices.
pub open spec fn next_index(n: int, j: int) -> int {
    if j + 1 == n {
        0
    } else {
        j + 1
    }
}

/// `s` with the stretch from `lo` to `hi`, both included, turned around.
pub open spec fn reversed_span(s: Seq<Point>, lo: int, hi: int) -> Seq<Point> {
    s.subrange(0, lo) + s.subrange(lo, hi + 1).reverse() + s.subrange(hi + 1, s.len() as int)
}

/// Turning a stretch around keeps every point, each as often as before.
pub proof fn lemma_reversed_span_permutes(s: Seq<Point>, lo: int, hi: int)
    requires
        0 <= lo <= hi < s.len(),
    ensures
        reversed_span(s, lo, hi).len() == s.len(),
        reversed_span(s, lo, hi).to_multiset() == s.to_multiset(),
{
    let a = s.subrange(0, lo);
    let m = s.subrange(lo, hi + 1);
    let z = s.subrange(hi + 1, s.len() as int);
    m.lemma_reverse_to_multiset();
    vstd::seq_lib::lemma_multiset_commutative(a, m.reverse());
    vstd::seq_lib::lemma_multiset_commutative(a + m.reverse(), z);
    vstd::seq_lib::lemma_multiset_commutative(a, m);
    vstd::seq_lib::lemma_multiset_commutative(a + m, z);
    assert(a + m + z =~= s);
}

/// Turns the stretch of `tour` from `lo` to `hi` around, in place.
pub fn reverse_span(tour: &mut Vec<Point>, lo: usize, hi: usize)
    requires
        lo <= hi < old(tour).len(),
    ensures
        final(tour)@ == reversed_span(old(tour)@, lo as int, hi as int),
{
    let ghost before = tour@;
    let mut a: usize = lo;
    let mut b: usize = hi;
    while a < b
        invariant
            lo <= a,
            b <= hi,
            a + b == lo + hi,
            a <= b + 1,
            hi < tour.len(),
            tour.len() == before.len(),
            forall|k: int| 0 <= k < lo || hi < k < tour.len() ==> tour@[k] == before[k],
            forall|k: int| a <= k <= b ==> tour@[k] == before[k],
            forall|k: int| lo <= k < a || b < k <= hi ==> tour@[k] == before[lo + hi - k],
        decreases b + 1 - a,
    {
        let pa = tour[a];
        let pb = tour[b];
        tour.set(a, pb);
        tour.set(b, pa);
        a += 1;
        b -= 1;
    }
    proof {
        assert(tour@ =~= reversed_span(before, lo as int, hi as int));
    }
}

} // verus!
