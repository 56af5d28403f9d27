use vstd::prelude::*;

verus! {

/// A planar point. Each coordinate is the bit pattern of a single-precision
/// number; two points are the same point exactly when both patterns agree.
#[derive(Clone, Copy, Debug, PartialEq, Eq, Structural, Hash)]
pub struct Point {
    pub x: u32,
    pub y: u32,
}

/// The bit pattern of positive infinity.
pub const INFINITE: u32 = 0x7F80_0000;

/// The bit pattern of negative infinity.
pub const MINUS_INFINITE: u32 = 0xFF80_0000;

/// Which way the path from a first point over a second to a third turns.
/// `Unknown` stands for a turn that could not be told, as with
/// coordinates that are no numbers.
#[derive(Clone, Copy, Debug, PartialEq, Eq, Structural)]
pub enum Side {
    Left,
    Right,
    Straight,
    Unknown,
}

/// The cross product is given for every three points, and always the
/// same for the same three.
pub open spec fn steady_side<G: Fn(Point, Point, Point) -> u32>(cross: &G) -> bool {
    &&& forall|o: Point, a: Point, b: Point| cross.requires((o, a, b))
    &&& forall|o: Point, a: Point, b: Point, s: u32, t: u32|
        cross.ensures((o, a, b), s) && cross.ensures((o, a, b), t) ==> s == t
}

/// The cross product of the steps from `o` to `a` and from `o` to `b`, as
/// the caller gives it.
pub open spec fn cross_of<G: Fn(Point, Point, Point) -> u32>(
    cross: &G,
    o: Point,
    a: Point,
    b: Point,
) -> u32 {
    choose|c: u32| cross.ensures((o, a, b), c)
}

/// The turn that a cross product stands for: to the left where it is
/// above zero, to the right where it is below, none where it is zero.
pub open spec fn turn_of(c: u32) -> Side {
    if greater(c, 0) {
        Side::Left
    } else if greater(0, c) {
        Side::Right
    } else if !is_nan(c) {
        Side::Straight
    } else {
        Side::Unknown
    }
}

/// The way the path from `o` over `a` to `b` turns.
pub open spec fn side_of<G: Fn(Point, Point, Point) -> u32>(
    cross: &G,
    o: Point,
    a: Point,
    b: Point,
) -> Side {
    turn_of(cross_of(cross, o, a, b))
}

/// Position of a bit pattern in the numeric order of the values it encodes.
/// Both zeros share one position; patterns that encode no number sort
/// beyond the infinities.
pub open spec fn order_key(bits: u32) -> int {
    if bits < 0x8000_0000 {
        bits + 0x8000_0000
    } else if bits == 0x8000_0000 {
        0x8000_0000
    } else {
        0xFFFF_FFFF - bits
    }
}

/// Computes [`order_key`].
pub fn key_of(bits: u32) -> (k: u32)
    ensures
        k == order_key(bits),
{
    if bits < 0x8000_0000 {
        bits + 0x8000_0000
    } else if bits == 0x8000_0000 {
        0x8000_0000
    } else {
        0xFFFF_FFFF - bits
    }
}

/// The pattern encodes no number.
pub open spec fn is_nan(bits: u32) -> bool {
    bits % 0x8000_0000 > 0x7F80_0000
}

/// The number that `a` encodes is greater than the one that `b` encodes.
/// False where either encodes no number.
pub open spec fn greater(a: u32, b: u32) -> bool {
    !is_nan(a) && !is_nan(b) && order_key(a) > order_key(b)
}

/// The number that `a` encodes is not greater than the one that `b`
/// encodes. False where either encodes no number.
pub open spec fn at_most(a: u32, b: u32) -> bool {
    !is_nan(a) && !is_nan(b) && order_key(a) <= order_key(b)
}

/// Computes [`at_most`].
pub fn not_above(a: u32, b: u32) -> (r: bool)
    ensures
        r == at_most(a, b),
{
    if a % 0x8000_0000 > 0x7F80_0000 || b % 0x8000_0000 > 0x7F80_0000 {
        false
    } else {
        key_of(a) <= key_of(b)
    }
}

/// Computes [`greater`].
pub fn exceeds(a: u32, b: u32) -> (r: bool)
    ensures
        r == greater(a, b),
{
    if a % 0x8000_0000 > 0x7F80_0000 || b % 0x8000_0000 > 0x7F80_0000 {
        false
    } else {
        key_of(a) > key_of(b)
    }
}

/// Computes [`turn_of`].
pub fn side_from(c: u32) -> (s: Side)
    ensures
        s == turn_of(c),
{
    if exceeds(c, 0) {
        Side::Left
    } else if exceeds(0, c) {
        Side::Right
    } else if c % 0x8000_0000 > 0x7F80_0000 {
        Side::Unknown
    } else {
        Side::Straight
    }
}

/// Whether `p` occurs in `s`.
pub fn contains_point(s: &Vec<Point>, p: Point) -> (r: bool)
    ensures
        r == s@.contains(p),
{
    let mut i: usize = 0;
    while i < s.len()
        invariant
            i <= s.len(),
            forall|k: int| 0 <= k < i ==> s@[k] != p,
        decreases s.len() - i,
    {
        if s[i] == p {
            return true;
        }
        i += 1;
    }
    false
}

/// The points of `a` that do not occur in `b`, in the order of `a`.
pub open spec fn left_out(a: Seq<Point>, b: Seq<Point>) -> Seq<Point> {
    a.filter(|p: Point| !b.contains(p))
}

/// The points of `a` that do not occur in `b`, in the order of `a`.
pub fn vec_diff(a: &Vec<Point>, b: &Vec<Point>) -> (r: Vec<Point>)
    ensures
        r@ == left_out(a@, b@),
{
    let mut out: Vec<Point> = Vec::new();
    let mut i: usize = 0;
    let ghost keep = |p: Point| !b@.contains(p);
    proof {
        assert(a@.take(0) =~= Seq::<Point>::empty());
    }
    while i < a.len()
        invariant
            i <= a.len(),
            keep == |p: Point| !b@.contains(p),
            out@ == a@.take(i as int).filter(keep),
        decreases a.len() - i,
    {
        let p = a[i];
        proof {
            assert(a@.take(i as int + 1) =~= a@.take(i as int).push(p));
            a@.take(i as int).lemma_filter_push(p, keep);
        }
        if !contains_point(b, p) {
            out.push(p);
        }
        i += 1;
    }
    proof {
        assert(a@.take(a.len() as int) =~= a@);
    }
    out
}

/// Filtering a list without repeats leaves a list without repeats.
pub proof fn lemma_filter_no_duplicates(s: Seq<Point>, keep: spec_fn(Point) -> bool)
    requires
        s.no_duplicates(),
    ensures
        s.filter(keep).no_duplicates(),
    decreases s.len(),
{
    reveal(Seq::filter);
    if s.len() > 0 {
        let head = s.drop_last();
        lemma_filter_no_duplicates(head, keep);
        if keep(s.last()) {
            if head.filter(keep).contains(s.last()) {
                head.lemma_filter_contains_rev(keep, s.last());
                let w = choose|w: int| 0 <= w < head.len() && head[w] == s.last();
                assert(s[w] == s[s.len() - 1]);
            }
            let f = head.filter(keep);
            assert forall|i: int, j: int|
                0 <= i < f.push(s.last()).len() && 0 <= j < f.push(s.last()).len() && i
                    != j implies f.push(s.last())[i] != f.push(s.last())[j] by {
                if i < f.len() && j < f.len() {
                } else if i < f.len() {
                    assert(f.contains(f[i]));
                } else {
                    assert(f.contains(f[j]));
                }
            }
        }
    }
}

/// A tour drawn from the points, and the points it leaves out, together
/// hold every point once: nothing is lost and nothing is there twice.
pub proof fn lemma_vec_diff_splits(points: Seq<Point>, tour: Seq<Point>)
    requires
        points.no_duplicates(),
        tour.no_duplicates(),
        forall|p: Point| tour.contains(p) ==> points.contains(p),
    ensures
        left_out(points, tour).no_duplicates(),
        tour.to_multiset().add(left_out(points, tour).to_multiset()) == points.to_multiset(),
        tour.len() + left_out(points, tour).len() == points.len(),
{
    broadcast use vstd::multiset::group_multiset_axioms;

    let keep = |p: Point| !tour.contains(p);
    let rest = points.filter(keep);
    lemma_filter_no_duplicates(points, keep);
    points.lemma_multiset_has_no_duplicates();
    tour.lemma_multiset_has_no_duplicates();
    rest.lemma_multiset_has_no_duplicates();
    points.to_multiset_ensures();
    tour.to_multiset_ensures();
    rest.to_multiset_ensures();
    assert forall|p: Point|
        tour.to_multiset().add(rest.to_multiset()).count(p) == points.to_multiset().count(p) by {
        if rest.contains(p) {
            points.lemma_filter_contains_rev(keep, p);
            let w = choose|w: int| 0 <= w < rest.len() && rest[w] == p;
            points.lemma_filter_pred(keep, w);
        }
        if points.contains(p) && !tour.contains(p) {
            let w = choose|w: int| 0 <= w < points.len() && points[w] == p;
            points.lemma_filter_contains(keep, w);
        }
    }
    assert(tour.to_multiset().add(rest.to_multiset()) =~= points.to_multiset());
    assert(tour.to_multiset().add(rest.to_multiset()).len() == tour.len() + rest.len());
}

} // verus!
