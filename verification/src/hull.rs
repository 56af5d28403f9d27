use vstd::prelude::*;
use vstd::relations::{sorted_by, total_ordering};
use crate::shared::{key_of, order_key, side_from, side_of, steady_side, Point, Side};

verus! {

/// Whether `a` comes before `b`, or is `b`, in the order of the sweep: by
/// the first coordinate, then by the second. Points that this leaves tied,
/// which differ in the sign of a zero only, go by their bit patterns.
pub open spec fn point_leq(a: Point, b: Point) -> bool {
    let ax = order_key(a.x);
    let bx = order_key(b.x);
    let ay = order_key(a.y);
    let by = order_key(b.y);
    ax < bx || (ax == bx && (ay < by || (ay == by && (a.x < b.x || (a.x == b.x && a.y <= b.y)))))
}

/// [`point_leq`] as a relation.
pub open spec fn sweep_order() -> spec_fn(Point, Point) -> bool {
    |a: Point, b: Point| point_leq(a, b)
}

/// What a point is sorted by: its two keys, then its two bit patterns.
pub open spec fn sweep_key(p: Point) -> (u32, u32, u32, u32) {
    (order_key(p.x) as u32, order_key(p.y) as u32, p.x, p.y)
}

/// Computes [`sweep_key`].
pub fn sort_key(p: Point) -> (k: (u32, u32, u32, u32))
    ensures
        k == sweep_key(p),
{
    (key_of(p.x), key_of(p.y), p.x, p.y)
}

/// The sweep order is a total order.
pub proof fn lemma_sweep_order_total()
    ensures
        total_ordering(sweep_order()),
{
    let r = sweep_order();
    assert forall|a: Point, b: Point| #[trigger] r(a, b) && #[trigger] r(b, a) implies a == b by {
        assert(point_leq(a, b) && point_leq(b, a));
    }
    assert forall|a: Point, b: Point, c: Point| #[trigger] r(a, b) && #[trigger] r(b, c) implies r(
        a,
        c,
    ) by {
        assert(point_leq(a, b) && point_leq(b, c));
        assert(point_leq(a, c));
    }
    assert forall|a: Point, b: Point| #[trigger] r(a, b) || #[trigger] r(b, a) by {
        assert(point_leq(a, b) || point_leq(b, a));
    }
    assert forall|a: Point| #[trigger] r(a, a) by {
        assert(point_leq(a, a));
    }
    assert(vstd::relations::reflexive(r));
    assert(vstd::relations::antisymmetric(r));
    assert(vstd::relations::transitive(r));
    assert(vstd::relations::strongly_connected(r));
}

/// Sorts the points with `slice::sort_by_key` under the key [`sort_key`].
/// Believed of it: what comes back holds the same points, each as often as
/// before, and stands in the order of the keys, which for tuples of
/// integers is the order of the first component, then of the second, and
/// so on.
#[verifier::external_body]
fn sort_points(v: &mut Vec<Point>)
    ensures
        sorted_by(final(v)@, sweep_order()),
        final(v)@.to_multiset() == old(v)@.to_multiset(),
{
    v.sort_by_key(|p| sort_key(*p));
}

/// The path from `o` over `a` to `b` turns right or goes straight on: `a`
/// is then no corner of a hull that is walked with the inside to the left.
pub open spec fn bends_back<G: Fn(Point, Point, Point) -> u32>(
    cross: &G,
    o: Point,
    a: Point,
    b: Point,
) -> bool {
    side_of(cross, o, a, b) == Side::Right || side_of(cross, o, a, b) == Side::Straight
}

/// The chain `st` after the vertices at which the path to `p` would bend
/// back have been taken off its end.
pub open spec fn settle<G: Fn(Point, Point, Point) -> u32>(
    cross: &G,
    st: Seq<Point>,
    p: Point,
) -> Seq<Point>
    decreases st.len(),
{
    if st.len() >= 2 && bends_back(cross, st[st.len() - 2], st[st.len() - 1], p) {
        settle(cross, st.drop_last(), p)
    } else {
        st
    }
}

/// The chain built over the first `upto` of the points `pts`.
pub open spec fn chain<G: Fn(Point, Point, Point) -> u32>(
    cross: &G,
    pts: Seq<Point>,
    upto: nat,
) -> Seq<Point>
    decreases upto,
{
    if upto == 0 {
        Seq::empty()
    } else {
        settle(cross, chain(cross, pts, (upto - 1) as nat), pts[upto - 1]).push(pts[upto - 1])
    }
}

/// The hull of `points`: the chain over the sorted points without its last
/// vertex, then the chain over them in falling order without its last
/// vertex. Fewer than two points are their own hull.
pub open spec fn hull_of<G: Fn(Point, Point, Point) -> u32>(
    cross: &G,
    points: Seq<Point>,
) -> Seq<Point> {
    if points.len() <= 1 {
        points
    } else {
        let s = points.sort_by(sweep_order());
        chain(cross, s, s.len()).drop_last() + chain(cross, s.reverse(), s.len()).drop_last()
    }
}

/// Settling takes vertices off the end only, leaves one at least where
/// there was one, and ends where the path over the last two vertices to
/// `p` does not bend back.
pub proof fn lemma_settle<G: Fn(Point, Point, Point) -> u32>(cross: &G, st: Seq<Point>, p: Point)
    ensures
        settle(cross, st, p).len() <= st.len(),
        settle(cross, st, p) == st.take(settle(cross, st, p).len() as int),
        st.len() >= 1 ==> settle(cross, st, p).len() >= 1,
        settle(cross, st, p).len() >= 2 ==> !bends_back(
            cross,
            settle(cross, st, p)[settle(cross, st, p).len() - 2],
            settle(cross, st, p)[settle(cross, st, p).len() - 1],
            p,
        ),
    decreases st.len(),
{
    if st.len() >= 2 && bends_back(cross, st[st.len() - 2], st[st.len() - 1], p) {
        lemma_settle(cross, st.drop_last(), p);
        let k = settle(cross, st, p).len() as int;
        assert(st.drop_last().take(k) =~= st.take(k));
    } else {
        assert(st.take(st.len() as int) =~= st);
    }
}

/// A chain over one point or more is not empty, and each of its vertices
/// is one of the points it was built over.
pub proof fn lemma_chain_members<G: Fn(Point, Point, Point) -> u32>(
    cross: &G,
    pts: Seq<Point>,
    upto: nat,
)
    requires
        upto <= pts.len(),
    ensures
        upto >= 1 ==> chain(cross, pts, upto).len() >= 1,
        chain(cross, pts, upto).len() <= upto,
        forall|i: int|
            0 <= i < chain(cross, pts, upto).len() ==> exists|j: int|
                0 <= j < upto && pts[j] == #[trigger] chain(cross, pts, upto)[i],
    decreases upto,
{
    if upto > 0 {
        let before = chain(cross, pts, (upto - 1) as nat);
        let p = pts[upto - 1];
        lemma_chain_members(cross, pts, (upto - 1) as nat);
        lemma_settle(cross, before, p);
        let st = settle(cross, before, p);
        let c = chain(cross, pts, upto);
        assert forall|i: int| 0 <= i < c.len() implies exists|j: int|
            0 <= j < upto && pts[j] == #[trigger] c[i] by {
            if i < st.len() {
                assert(c[i] == before[i]);
                let j = choose|j: int| 0 <= j < upto - 1 && pts[j] == before[i];
                assert(pts[j] == c[i]);
            } else {
                assert(pts[upto - 1] == c[i]);
            }
        }
    }
}

/// Along a chain the path bends back at no vertex: every three vertices
/// in a row turn left, or their turn could not be told.
pub proof fn lemma_chain_turns_left<G: Fn(Point, Point, Point) -> u32>(
    cross: &G,
    pts: Seq<Point>,
    upto: nat,
    i: int,
)
    requires
        upto <= pts.len(),
        0 <= i,
        i + 2 < chain(cross, pts, upto).len(),
    ensures
        !bends_back(
            cross,
            chain(cross, pts, upto)[i],
            chain(cross, pts, upto)[i + 1],
            chain(cross, pts, upto)[i + 2],
        ),
    decreases upto,
{
    if upto > 0 {
        let before = chain(cross, pts, (upto - 1) as nat);
        let p = pts[upto - 1];
        lemma_settle(cross, before, p);
        let st = settle(cross, before, p);
        if i + 2 < st.len() {
            lemma_chain_turns_left(cross, pts, (upto - 1) as nat, i);
        }
    }
}

/// Where every path over three points bends back, as it does when all
/// points lie on one line, a chain keeps its first and its last point and
/// nothing else.
pub proof fn lemma_chain_on_a_line<G: Fn(Point, Point, Point) -> u32>(
    cross: &G,
    pts: Seq<Point>,
    upto: nat,
)
    requires
        2 <= upto <= pts.len(),
        forall|o: Point, a: Point, b: Point| bends_back(cross, o, a, b),
    ensures
        chain(cross, pts, upto) == seq![pts[0], pts[upto - 1]],
    decreases upto,
{
    reveal_with_fuel(chain, 3);
    reveal_with_fuel(settle, 3);
    if upto == 2 {
        assert(chain(cross, pts, 1) =~= seq![pts[0]]);
        assert(chain(cross, pts, 2) =~= seq![pts[0], pts[1]]);
    } else {
        lemma_chain_on_a_line(cross, pts, (upto - 1) as nat);
        let before = chain(cross, pts, (upto - 1) as nat);
        let p = pts[upto - 1];
        assert(before.drop_last() =~= seq![pts[0]]);
        assert(settle(cross, before, p) == settle(cross, before.drop_last(), p));
        assert(chain(cross, pts, upto) =~= seq![pts[0], pts[upto - 1]]);
    }
}

/// Up to two points are their own hull: one point or none as they stand,
/// two in the order of the sweep.
pub proof fn lemma_hull_of_few<G: Fn(Point, Point, Point) -> u32>(cross: &G, points: Seq<Point>)
    requires
        points.len() <= 2,
    ensures
        points.len() <= 1 ==> hull_of(cross, points) == points,
        points.len() == 2 ==> hull_of(cross, points) == points.sort_by(sweep_order()),
        hull_of(cross, points).to_multiset() == points.to_multiset(),
{
    if points.len() == 2 {
        lemma_sweep_order_total();
        points.lemma_sort_by_ensures(sweep_order());
        let s = points.sort_by(sweep_order());
        s.to_multiset_ensures();
        points.to_multiset_ensures();
        let back = s.reverse();
        reveal_with_fuel(chain, 3);
        reveal_with_fuel(settle, 2);
        assert(chain(cross, s, 1) =~= seq![s[0]]);
        assert(chain(cross, s, 2) =~= seq![s[0], s[1]]);
        assert(chain(cross, back, 1) =~= seq![back[0]]);
        assert(chain(cross, back, 2) =~= seq![back[0], back[1]]);
        assert(hull_of(cross, points) =~= s);
    }
}

/// Where every path over three points bends back, as it does when all
/// points lie on one line, the hull of two points or more is made of the
/// first and the last point of the sweep.
pub proof fn lemma_hull_on_a_line<G: Fn(Point, Point, Point) -> u32>(cross: &G, points: Seq<Point>)
    requires
        points.len() >= 2,
        forall|o: Point, a: Point, b: Point| bends_back(cross, o, a, b),
    ensures
        hull_of(cross, points) == seq![
            points.sort_by(sweep_order()).first(),
            points.sort_by(sweep_order()).last(),
        ],
{
    lemma_sweep_order_total();
    points.lemma_sort_by_ensures(sweep_order());
    let s = points.sort_by(sweep_order());
    s.to_multiset_ensures();
    points.to_multiset_ensures();
    let back = s.reverse();
    lemma_chain_on_a_line(cross, s, s.len());
    lemma_chain_on_a_line(cross, back, s.len());
    assert(hull_of(cross, points) =~= seq![s.first(), s.last()]);
}

/// Every vertex of a hull is one of the points.
pub proof fn lemma_hull_members<G: Fn(Point, Point, Point) -> u32>(cross: &G, points: Seq<Point>)
    ensures
        forall|p: Point| hull_of(cross, points).contains(p) ==> points.contains(p),
        points.len() >= 1 ==> hull_of(cross, points).len() >= 1,
{
    if points.len() >= 2 {
        lemma_sweep_order_total();
        points.lemma_sort_by_ensures(sweep_order());
        let s = points.sort_by(sweep_order());
        s.to_multiset_ensures();
        points.to_multiset_ensures();
        let back = s.reverse();
        let n = s.len();
        let low = chain(cross, s, n);
        let up = chain(cross, back, n);
        lemma_chain_members(cross, s, n);
        lemma_chain_members(cross, back, n);
        lemma_chain_grows(cross, s, n);
        let h = hull_of(cross, points);
        assert forall|p: Point| h.contains(p) implies points.contains(p) by {
            let w = choose|w: int| 0 <= w < h.len() && h[w] == p;
            if w < low.len() - 1 {
                assert(h[w] == low[w]);
                let j = choose|j: int| 0 <= j < n && s[j] == low[w];
                assert(s.contains(p));
            } else {
                let v = w - (low.len() - 1);
                assert(h[w] == up[v]);
                let j = choose|j: int| 0 <= j < n && back[j] == up[v];
                assert(s[n - 1 - j] == p);
                assert(s.contains(p));
            }
        }
    }
}

/// A chain over two points or more has two vertices or more.
pub proof fn lemma_chain_grows<G: Fn(Point, Point, Point) -> u32>(
    cross: &G,
    pts: Seq<Point>,
    upto: nat,
)
    requires
        2 <= upto <= pts.len(),
    ensures
        chain(cross, pts, upto).len() >= 2,
{
    lemma_chain_members(cross, pts, (upto - 1) as nat);
    lemma_settle(cross, chain(cross, pts, (upto - 1) as nat), pts[upto - 1]);
}

/// Builds the chain over `pts`.
pub fn build_chain<G: Fn(Point, Point, Point) -> u32>(pts: &Vec<Point>, cross: &G) -> (r: Vec<Point>)
    requires
        steady_side(cross),
    ensures
        r@ == chain(cross, pts@, pts@.len()),
{
    let mut st: Vec<Point> = Vec::new();
    let mut i: usize = 0;
    while i < pts.len()
        invariant
            i <= pts.len(),
            steady_side(cross),
            st@ == chain(cross, pts@, i as nat),
        decreases pts.len() - i,
    {
        let p = pts[i];
        let ghost before = st@;
        loop
            invariant
                steady_side(cross),
                settle(cross, st@, p) == settle(cross, before, p),
            ensures
                st@ == settle(cross, before, p),
            decreases st.len(),
        {
            let l = st.len();
            if l < 2 {
                break ;
            }
            match side_from(cross(st[l - 2], st[l - 1], p)) {
                Side::Right | Side::Straight => {},
                _ => {
                    break ;
                },
            }
            st.pop();
        }
        st.push(p);
        i += 1;
    }
    st
}

/// The convex hull of `points`, by the monotone chain.
///
/// The points are sorted by first, then second coordinate. A chain is
/// built over them from the lowest up and another from the highest down;
/// each new point first takes off the end of the chain every vertex at
/// which the chain would turn right or go straight on. `cross(o, a, b)` is
/// asked for the cross product of the steps from `o` to `a` and from `o`
/// to `b`, whose sign tells the turn. The two chains, each without its
/// last vertex, make the hull.
pub fn convex_hull<G: Fn(Point, Point, Point) -> u32>(points: &Vec<Point>, cross: &G) -> (r: Vec<
    Point,
>)
    requires
        steady_side(cross),
    ensures
        r@ == hull_of(cross, points@),
{
    let n = points.len();
    let mut pts: Vec<Point> = Vec::with_capacity(n);
    let mut i: usize = 0;
    while i < n
        invariant
            i <= n,
            n == points.len(),
            pts@ == points@.take(i as int),
        decreases n - i,
    {
        pts.push(points[i]);
        proof {
            assert(pts@ =~= points@.take(i + 1));
        }
        i += 1;
    }
    proof {
        assert(points@.take(n as int) =~= points@);
    }
    if n <= 1 {
        return pts;
    }
    sort_points(&mut pts);
    proof {
        lemma_sweep_order_total();
        points@.lemma_sort_by_ensures(sweep_order());
        vstd::seq_lib::lemma_sorted_unique(pts@, points@.sort_by(sweep_order()), sweep_order());
        pts@.to_multiset_ensures();
        points@.to_multiset_ensures();
    }
    let mut lower = build_chain(&pts, cross);
    let mut back: Vec<Point> = Vec::with_capacity(n);
    let mut j: usize = n;
    while j > 0
        invariant
            j <= n,
            n == pts.len(),
            back@.len() == n - j,
            forall|k: int| 0 <= k < n - j ==> back@[k] == pts@[n - 1 - k],
        decreases j,
    {
        j -= 1;
        back.push(pts[j]);
    }
    proof {
        assert(back@ =~= pts@.reverse());
    }
    let mut upper = build_chain(&back, cross);
    proof {
        lemma_chain_members(cross, pts@, n as nat);
        lemma_chain_members(cross, back@, n as nat);
    }
    lower.pop();
    upper.pop();
    let mut k: usize = 0;
    let ghost low = lower@;
    while k < upper.len()
        invariant
            k <= upper.len(),
            lower@ == low + upper@.take(k as int),
        decreases upper.len() - k,
    {
        lower.push(upper[k]);
        proof {
            assert(lower@ =~= low + upper@.take(k + 1));
        }
        k += 1;
    }
    proof {
        assert(upper@.take(upper.len() as int) =~= upper@);
    }
    lower
}

} // verus!
