use vstd::prelude::*;
use crate::shared::{exceeds, greater, side_from, side_of, steady_side, Point, Side};
use crate::tour::{lemma_reversed_span_permutes, next_index, reverse_span, reversed_span};

verus! {

/// Edges `i` and `j` of a closed tour of `n` vertices, `i` before `j`, that
/// share no vertex.
pub open spec fn apart(n: int, i: int, j: int) -> bool {
    &&& 0 <= i
    &&& i + 2 <= j < n
    &&& !(i == 0 && j + 1 == n)
}

/// Whether pair `(i2, j2)` is looked at before pair `(i, j)`.
pub open spec fn scanned_before(i2: int, j2: int, i: int, j: int) -> bool {
    i2 < i || (i2 == i && j2 < j)
}

/// One turn is to the left and the other to the right.
pub open spec fn opposite(s: Side, t: Side) -> bool {
    (s == Side::Left && t == Side::Right) || (s == Side::Right && t == Side::Left)
}

/// The segments `a`-`b` and `c`-`d` cross properly: the ends of each lie
/// on opposite sides of the other. Segments that touch, or lie on one
/// line, do not cross.
pub open spec fn crosses<G: Fn(Point, Point, Point) -> u32>(
    cross: &G,
    a: Point,
    b: Point,
    c: Point,
    d: Point,
) -> bool {
    opposite(side_of(cross, a, b, c), side_of(cross, a, b, d)) && opposite(
        side_of(cross, c, d, a),
        side_of(cross, c, d, b),
    )
}

/// The lengths are given for every four points, and always the same for
/// the same four.
pub open spec fn single_minded<H: Fn(Point, Point, Point, Point) -> u32>(span: &H) -> bool {
    &&& forall|a: Point, b: Point, c: Point, d: Point| span.requires((a, b, c, d))
    &&& forall|a: Point, b: Point, c: Point, d: Point, s: u32, t: u32|
        span.ensures((a, b, c, d), s) && span.ensures((a, b, c, d), t) ==> s == t
}

/// The length of the edge `a`-`b` and the length of the edge `c`-`d`
/// together, as the caller gives it.
pub open spec fn span_of<H: Fn(Point, Point, Point, Point) -> u32>(
    span: &H,
    a: Point,
    b: Point,
    c: Point,
    d: Point,
) -> u32 {
    choose|s: u32| span.ensures((a, b, c, d), s)
}

/// Edges `i` and `j` of `t` are to be exchanged: they cross properly, and
/// the two edges that would take their place are shorter together than
/// they are.
pub open spec fn gainful<G: Fn(Point, Point, Point) -> u32, H: Fn(Point, Point, Point, Point) -> u32>(
    cross: &G,
    span: &H,
    t: Seq<Point>,
    i: int,
    j: int,
) -> bool {
    let a = t[i];
    let b = t[i + 1];
    let c = t[j];
    let d = t[next_index(t.len() as int, j)];
    crosses(cross, a, b, c, d) && greater(span_of(span, a, b, c, d), span_of(span, a, c, b, d))
}

/// Whether the segments `a`-`b` and `c`-`d` cross properly.
pub fn segments_intersect<G: Fn(Point, Point, Point) -> u32>(
    cross: &G,
    a: Point,
    b: Point,
    c: Point,
    d: Point,
) -> (r: bool)
    requires
        steady_side(cross),
    ensures
        r == crosses(cross, a, b, c, d),
{
    let s1 = side_from(cross(a, b, c));
    let s2 = side_from(cross(a, b, d));
    let s3 = side_from(cross(c, d, a));
    let s4 = side_from(cross(c, d, b));
    turned_apart(s1, s2) && turned_apart(s3, s4)
}

/// Computes [`opposite`].
fn turned_apart(s: Side, t: Side) -> (r: bool)
    ensures
        r == opposite(s, t),
{
    match (s, t) {
        (Side::Left, Side::Right) => true,
        (Side::Right, Side::Left) => true,
        _ => false,
    }
}

/// No two edges of `t` that share no vertex are to be exchanged.
pub open spec fn settled<G: Fn(Point, Point, Point) -> u32, H: Fn(Point, Point, Point, Point) -> u32>(
    cross: &G,
    span: &H,
    t: Seq<Point>,
) -> bool {
    forall|i: int, j: int| apart(t.len() as int, i, j) ==> !gainful(cross, span, t, i, j)
}

/// `t` is `s` after one exchange: the first pair of edges, in scanning
/// order, that is to be exchanged had the stretch between its edges turned
/// around.
pub open spec fn exchanged<G: Fn(Point, Point, Point) -> u32, H: Fn(Point, Point, Point, Point) -> u32>(
    cross: &G,
    span: &H,
    s: Seq<Point>,
    t: Seq<Point>,
) -> bool {
    exists|i: int, j: int|
        {
            &&& apart(s.len() as int, i, j)
            &&& #[trigger] gainful(cross, span, s, i, j)
            &&& t == reversed_span(s, i + 1, j)
            &&& forall|i2: int, j2: int|
                apart(s.len() as int, i2, j2) && scanned_before(i2, j2, i, j) ==> !gainful(
                    cross,
                    span,
                    s,
                    i2,
                    j2,
                )
        }
}

/// One pass of the uncrosser.
///
/// The pairs of edges that share no vertex are looked at in order: by
/// first edge, then by second. `cross(o, a, b)` is asked for the cross
/// product of the steps from `o` to `a` and from `o` to `b`, whose sign
/// tells the turn, and `span(a, b, c, d)` for the length of the edges
/// `a`-`b` and `c`-`d` together. At the first pair of edges `a`-`b` and
/// `c`-`d` that cross properly, and for which `a`-`c` and `b`-`d` are
/// shorter together, the stretch from `b` to `c` is turned around, and the
/// pass ends with `true`. A pass that finds no such pair leaves the tour
/// as it was and returns `false`.
pub fn eliminate_crossings<G: Fn(Point, Point, Point) -> u32, H: Fn(Point, Point, Point, Point) -> u32>(
    tour: &mut Vec<Point>,
    cross: &G,
    span: &H,
) -> (r: bool)
    requires
        steady_side(cross),
        single_minded(span),
    ensures
        r ==> exchanged(cross, span, old(tour)@, final(tour)@),
        !r ==> final(tour)@ == old(tour)@ && settled(cross, span, old(tour)@),
        final(tour)@.len() == old(tour)@.len(),
        final(tour)@.to_multiset() == old(tour)@.to_multiset(),
{
    let n = tour.len();
    if n < 4 {
        return false;
    }
    let ghost before = tour@;
    let mut i: usize = 0;
    while i + 2 < n
        invariant
            n == tour.len(),
            n >= 4,
            i + 2 <= n,
            tour@ == before,
            before == old(tour)@,
            steady_side(cross),
        single_minded(span),
            forall|i2: int, j2: int|
                apart(n as int, i2, j2) && i2 < i ==> !gainful(cross, span, before, i2, j2),
        decreases n - i,
    {
        let a = tour[i];
        let b = tour[i + 1];
        let mut j: usize = i + 2;
        while j < n
            invariant
                n == tour.len(),
                i + 2 <= j <= n,
                tour@ == before,
                before == old(tour)@,
                a == before[i as int],
                b == before[i + 1],
                steady_side(cross),
        single_minded(span),
                forall|i2: int, j2: int|
                    apart(n as int, i2, j2) && scanned_before(i2, j2, i as int, j as int)
                        ==> !gainful(cross, span, before, i2, j2),
            decreases n - j,
        {
            if !(i == 0 && j + 1 == n) {
                let c = tour[j];
                let d = tour[if j + 1 == n { 0 } else { j + 1 }];
                if segments_intersect(cross, a, b, c, d) && exceeds(
                    span(a, b, c, d),
                    span(a, c, b, d),
                ) {
                    reverse_span(tour, i + 1, j);
                    proof {
                        assert(gainful(cross, span, before, i as int, j as int));
                        lemma_reversed_span_permutes(before, i + 1, j as int);
                    }
                    return true;
                }
                proof {
                    assert(!gainful(cross, span, before, i as int, j as int));
                }
            }
            j += 1;
        }
        i += 1;
    }
    false
}

/// `t` comes from `s` by `k` exchanges, one after the other.
pub open spec fn exchanged_times<G: Fn(Point, Point, Point) -> u32, H: Fn(Point, Point, Point, Point) -> u32>(
    cross: &G,
    span: &H,
    s: Seq<Point>,
    t: Seq<Point>,
    k: nat,
) -> bool
    decreases k,
{
    if k == 0 {
        t == s
    } else {
        exists|m: Seq<Point>|
            exchanged_times(cross, span, s, m, (k - 1) as nat) && #[trigger] exchanged(cross, span, m, t)
    }
}

/// Where two edges that cross properly are always longer together than
/// the two that would take their place, as they are for true lengths, a
/// settled tour has no two edges that cross properly.
pub proof fn lemma_settled_has_no_crossing<
    G: Fn(Point, Point, Point) -> u32,
    H: Fn(Point, Point, Point, Point) -> u32,
>(cross: &G, span: &H, t: Seq<Point>)
    requires
        settled(cross, span, t),
        forall|a: Point, b: Point, c: Point, d: Point| #[trigger]
            crosses(cross, a, b, c, d) ==> greater(
                span_of(span, a, b, c, d),
                span_of(span, a, c, b, d),
            ),
    ensures
        forall|i: int, j: int| #[trigger]
            apart(t.len() as int, i, j) ==> !crosses(
                cross,
                t[i],
                t[i + 1],
                t[j],
                t[next_index(t.len() as int, j)],
            ),
{
    assert forall|i: int, j: int| #[trigger] apart(t.len() as int, i, j) implies !crosses(
        cross,
        t[i],
        t[i + 1],
        t[j],
        t[next_index(t.len() as int, j)],
    ) by {
        assert(!gainful(cross, span, t, i, j));
    }
}

/// An exchange keeps every point of the tour, each as often as before.
pub proof fn lemma_exchange_permutes<G: Fn(Point, Point, Point) -> u32, H: Fn(Point, Point, Point, Point) -> u32>(
    cross: &G,
    span: &H,
    s: Seq<Point>,
    t: Seq<Point>,
)
    requires
        exchanged(cross, span, s, t),
    ensures
        t.len() == s.len(),
        t.to_multiset() == s.to_multiset(),
{
    let (i, j) = choose|i: int, j: int|
        apart(s.len() as int, i, j) && #[trigger] gainful(cross, span, s, i, j) && t
            == reversed_span(s, i + 1, j);
    lemma_reversed_span_permutes(s, i + 1, j);
}

/// On a settled tour there is nothing to exchange: a second run
/// of the uncrosser right after a finished one changes nothing.
pub proof fn lemma_settled_stays<G: Fn(Point, Point, Point) -> u32, H: Fn(Point, Point, Point, Point) -> u32>(
    cross: &G,
    span: &H,
    s: Seq<Point>,
    t: Seq<Point>,
    k: nat,
)
    requires
        settled(cross, span, s),
        exchanged_times(cross, span, s, t, k),
    ensures
        k == 0,
        t == s,
    decreases k,
{
    if k > 0 {
        let m = choose|m: Seq<Point>|
            exchanged_times(cross, span, s, m, (k - 1) as nat) && #[trigger] exchanged(cross, span, m, t);
        lemma_settled_stays(cross, span, s, m, (k - 1) as nat);
        let (i, j) = choose|i: int, j: int|
            apart(s.len() as int, i, j) && #[trigger] gainful(cross, span, s, i, j);
        assert(!gainful(cross, span, s, i, j));
    }
}

/// Runs passes of the uncrosser until one finds nothing to exchange, or
/// until `max_passes` exchanges have been made. Returns whether the tour
/// was changed by any pass.
///
/// The tour that comes back is settled unless the allowance was used up.
pub fn eliminate_all_crossings<G: Fn(Point, Point, Point) -> u32, H: Fn(Point, Point, Point, Point) -> u32>(
    tour: &mut Vec<Point>,
    cross: &G,
    span: &H,
    max_passes: usize,
) -> (r: bool)
    requires
        steady_side(cross),
        single_minded(span),
    ensures
        exists|k: nat|
            {
                &&& k <= max_passes
                &&& #[trigger] exchanged_times(cross, span, old(tour)@, final(tour)@, k)
                &&& r == (k > 0)
                &&& k < max_passes ==> settled(cross, span, final(tour)@)
            },
        final(tour)@.len() == old(tour)@.len(),
        final(tour)@.to_multiset() == old(tour)@.to_multiset(),
{
    let mut passes: usize = 0;
    while passes < max_passes
        invariant
            passes <= max_passes,
            steady_side(cross),
        single_minded(span),
            exchanged_times(cross, span, old(tour)@, tour@, passes as nat),
            tour@.len() == old(tour)@.len(),
            tour@.to_multiset() == old(tour)@.to_multiset(),
        decreases max_passes - passes,
    {
        if !eliminate_crossings(tour, cross, span) {
            return passes > 0;
        }
        passes += 1;
    }
    passes > 0
}

} // verus!
