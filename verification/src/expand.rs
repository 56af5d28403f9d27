use vstd::prelude::*;
use crate::hull::{convex_hull, hull_of, lemma_hull_members};
use crate::precompute::{lemma_holds_after_removal, SpatialGrid};
use crate::relp::InsertPointResult;
use crate::select::{insert_point, lemma_selected_sound, Kernels, TENTH};
use crate::shared::{
    exceeds, greater, is_nan, key_of, left_out, lemma_vec_diff_splits, order_key, steady_side,
    vec_diff, Point, INFINITE,
};

verus! {

/// The score is a number, and not above zero.
pub open spec fn not_positive(bits: u32) -> bool {
    !is_nan(bits) && order_key(bits) <= 0x8000_0000
}

/// The per-edge allowance of a step over `remaining` points: a tenth of
/// them, but no fewer than 8 and no more than 64.
pub open spec fn allowance(remaining: nat) -> nat {
    if remaining / 10 < 8 {
        8
    } else if remaining / 10 > 64 {
        64
    } else {
        remaining / 10
    }
}

/// How many candidates per edge a step asks for: a tenth of the points
/// still to be set, but no fewer than 8 and no more than 64.
pub fn adaptive_n(remaining: usize) -> (n: usize)
    ensures
        n == allowance(remaining as nat),
{
    let tenth = remaining / 10;
    if tenth < 8 {
        8
    } else if tenth > 64 {
        64
    } else {
        tenth
    }
}

/// The allowance of steps for an interior of `remaining` points.
pub open spec fn iteration_cap_of(remaining: nat) -> nat {
    if 2 * remaining > usize::MAX {
        usize::MAX as nat
    } else {
        2 * remaining
    }
}

/// The most steps an expansion over `remaining` points may take: twice
/// their number.
pub fn iteration_cap(remaining: usize) -> (cap: usize)
    ensures
        cap == iteration_cap_of(remaining as nat),
{
    if remaining > usize::MAX / 2 {
        usize::MAX
    } else {
        2 * remaining
    }
}

/// The first position from `from` on at which `p` stands in `s`; the
/// length of `s` if there is none.
pub open spec fn first_at(s: Seq<Point>, p: Point, from: int) -> int
    decreases s.len() - from,
{
    if from < 0 || from >= s.len() || s[from] == p {
        from
    } else {
        first_at(s, p, from + 1)
    }
}

/// `s` without the first occurrence of `p`.
pub open spec fn without_first(s: Seq<Point>, p: Point) -> Seq<Point> {
    let i = first_at(s, p, 0);
    if 0 <= i < s.len() {
        s.remove(i)
    } else {
        s
    }
}

/// `s` with `c` set in behind the first occurrence of `a`; `s` itself
/// where `a` does not occur.
pub open spec fn with_after_first(s: Seq<Point>, a: Point, c: Point) -> Seq<Point> {
    let i = first_at(s, a, 0);
    if 0 <= i < s.len() {
        s.insert(i + 1, c)
    } else {
        s
    }
}

/// Where [`first_at`] points: at an occurrence of `p` before which there
/// is none, or behind the end if `p` does not occur from `from` on.
pub proof fn lemma_first_at(s: Seq<Point>, p: Point, from: int)
    requires
        0 <= from <= s.len(),
    ensures
        from <= first_at(s, p, from) <= s.len(),
        first_at(s, p, from) < s.len() ==> s[first_at(s, p, from)] == p,
        forall|i: int| from <= i < first_at(s, p, from) ==> s[i] != p,
    decreases s.len() - from,
{
    if from < s.len() && s[from] != p {
        lemma_first_at(s, p, from + 1);
    }
}

/// Computes [`first_at`] from the start.
pub fn position(s: &Vec<Point>, p: Point) -> (i: usize)
    ensures
        i == first_at(s@, p, 0),
        i <= s.len(),
        (i < s.len()) == s@.contains(p),
{
    let mut i: usize = 0;
    while i < s.len() && s[i] != p
        invariant
            i <= s.len(),
            first_at(s@, p, 0) == first_at(s@, p, i as int),
            forall|j: int| 0 <= j < i ==> s@[j] != p,
        decreases s.len() - i,
    {
        i += 1;
    }
    i
}

/// Carries out an insertion.
///
/// The record goes to the end of the log; its point leaves the interior,
/// where it first stands, and the grid; and it enters the tour behind the
/// first occurrence of the record's anchor. A point that the interior
/// lacks is not taken out, and behind an anchor that the tour lacks
/// nothing is set in.
pub fn update_hull<C: Fn(Point) -> (i32, i32)>(
    result: &InsertPointResult,
    hull: &mut Vec<Point>,
    inner_hull: &mut Vec<Point>,
    spatial_grid: &mut SpatialGrid<C>,
    insert_log: &mut Vec<InsertPointResult>,
)
    requires
        old(spatial_grid).wf(),
    ensures
        final(insert_log)@ == old(insert_log)@.push(*result),
        final(inner_hull)@ == without_first(old(inner_hull)@, result.best_c),
        final(hull)@ == with_after_first(old(hull)@, result.best_a, result.best_c),
        final(spatial_grid).wf(),
        final(spatial_grid).locator() == old(spatial_grid).locator(),
        forall|c: (i32, i32)|
            #[trigger] final(spatial_grid).bucket(c) == old(spatial_grid).bucket(c).filter(
                |q: Point| q != result.best_c,
            ),
{
    insert_log.push(*result);
    let at = position(inner_hull, result.best_c);
    if at < inner_hull.len() {
        inner_hull.remove(at);
    }
    spatial_grid.remove_point(result.best_c);
    let anchor = position(hull, result.best_a);
    if anchor < hull.len() {
        hull.insert(anchor + 1, result.best_c);
    }
}

/// Setting a point of the interior in behind a vertex of the tour moves
/// that one point and nothing else: the tour grows by one, the interior
/// shrinks by one, and the two together hold what they held.
pub proof fn lemma_step_conserves(h: Seq<Point>, inner: Seq<Point>, a: Point, c: Point)
    requires
        h.contains(a),
        inner.contains(c),
    ensures
        with_after_first(h, a, c).len() == h.len() + 1,
        without_first(inner, c).len() == inner.len() - 1,
        with_after_first(h, a, c).to_multiset().add(without_first(inner, c).to_multiset())
            == h.to_multiset().add(inner.to_multiset()),
{
    lemma_first_at(h, a, 0);
    lemma_first_at(inner, c, 0);
    let i = first_at(h, a, 0);
    let j = first_at(inner, c, 0);
    let w = choose|w: int| 0 <= w < h.len() && h[w] == a;
    let v = choose|v: int| 0 <= v < inner.len() && inner[v] == c;
    assert(i <= w);
    assert(j <= v);
    broadcast use vstd::multiset::group_multiset_axioms;

    vstd::seq_lib::to_multiset_insert(h, i + 1, c);
    vstd::seq_lib::to_multiset_remove(inner, j);
    inner.to_multiset_ensures();
    assert(inner.to_multiset().count(c) > 0);
    assert(h.insert(i + 1, c).to_multiset().add(inner.remove(j).to_multiset()) =~= h.to_multiset().add(
        inner.to_multiset(),
    ));
}

/// The grid keeps exactly the points of the interior.
pub open spec fn mirrors<C: Fn(Point) -> (i32, i32)>(
    grid: &SpatialGrid<C>,
    inner: Seq<Point>,
) -> bool {
    forall|p: Point| grid.holds(p) <==> inner.contains(p)
}

/// The grid keeps points of the interior only.
pub open spec fn covered<C: Fn(Point) -> (i32, i32)>(
    grid: &SpatialGrid<C>,
    inner: Seq<Point>,
) -> bool {
    forall|p: Point| grid.holds(p) ==> inner.contains(p)
}

/// Taking the first occurrence of `c` out of `s` leaves every other point
/// in, and leaves `c` out if it stood there once only.
pub proof fn lemma_without_first(s: Seq<Point>, c: Point)
    ensures
        forall|p: Point| p != c ==> (without_first(s, c).contains(p) <==> s.contains(p)),
        forall|p: Point| without_first(s, c).contains(p) ==> s.contains(p),
        s.no_duplicates() ==> without_first(s, c).no_duplicates() && !without_first(
            s,
            c,
        ).contains(c),
{
    lemma_first_at(s, c, 0);
    let i = first_at(s, c, 0);
    let t = without_first(s, c);
    if i < s.len() {
        assert forall|p: Point| t.contains(p) implies s.contains(p) by {
            let w = choose|w: int| 0 <= w < t.len() && t[w] == p;
            if w < i {
                assert(s[w] == p);
            } else {
                assert(s[w + 1] == p);
            }
        }
        assert forall|p: Point| p != c && s.contains(p) implies t.contains(p) by {
            let w = choose|w: int| 0 <= w < s.len() && s[w] == p;
            if w < i {
                assert(t[w] == p);
            } else {
                assert(t[w - 1] == p);
            }
        }
        if s.no_duplicates() {
            assert forall|x: int, y: int| 0 <= x < t.len() && 0 <= y < t.len() && x != y implies t[x]
                != t[y] by {
                let x2 = if x < i {
                    x
                } else {
                    x + 1
                };
                let y2 = if y < i {
                    y
                } else {
                    y + 1
                };
                assert(t[x] == s[x2] && t[y] == s[y2]);
            }
            if t.contains(c) {
                let w = choose|w: int| 0 <= w < t.len() && t[w] == c;
                let w2 = if w < i {
                    w
                } else {
                    w + 1
                };
                assert(s[w2] == c && s[i] == c);
            }
        }
    }
}

/// After an insertion the grid still keeps points of the interior only;
/// and where it kept exactly the points of an interior without repeats, it
/// does so again.
pub proof fn lemma_step_keeps_mirror<C: Fn(Point) -> (i32, i32)>(
    before: &SpatialGrid<C>,
    after: &SpatialGrid<C>,
    inner: Seq<Point>,
    c: Point,
)
    requires
        after.locator() == before.locator(),
        forall|d: (i32, i32)| #[trigger] after.bucket(d) == before.bucket(d).filter(|q: Point| q != c),
    ensures
        covered(before, inner) ==> covered(after, without_first(inner, c)),
        mirrors(before, inner) && inner.no_duplicates() ==> mirrors(after, without_first(inner, c))
            && without_first(inner, c).no_duplicates(),
{
    lemma_holds_after_removal(before, after, c);
    lemma_without_first(inner, c);
    let rest = without_first(inner, c);
    if covered(before, inner) {
        assert forall|p: Point| after.holds(p) implies rest.contains(p) by {
            assert(before.holds(p) && p != c);
            assert(inner.contains(p));
        }
    }
    if mirrors(before, inner) && inner.no_duplicates() {
        assert forall|p: Point| after.holds(p) <==> rest.contains(p) by {
            if after.holds(p) {
                assert(before.holds(p) && p != c);
                assert(inner.contains(p));
            }
            if rest.contains(p) {
                assert(inner.contains(p));
                assert(p != c);
                assert(before.holds(p));
            }
        }
    }
}

impl<
    R: Fn(&Vec<Point>) -> (u32, u32),
    K: Fn(u32) -> i32,
    W: Fn(Point, Point) -> u32,
    M: Fn(Point, Point) -> Point,
    S: Fn(Point, Point, [Point; 8]) -> [u32; 8],
    D: Fn(Point, Point) -> u32,
> Kernels<R, K, W, M, S, D> {
    /// The closest tour vertex to `p` among the first `upto`, if closer
    /// than what `acc` holds: a distance, a tour vertex and a point.
    pub open spec fn nearest_in_row(
        &self,
        h: Seq<Point>,
        p: Point,
        upto: nat,
        acc: (u32, Point, Point),
    ) -> (u32, Point, Point)
        decreases upto,
    {
        if upto == 0 {
            acc
        } else {
            let prev = self.nearest_in_row(h, p, (upto - 1) as nat, acc);
            let d = self.gap(p, h[upto - 1]);
            if greater(prev.0, d) {
                (d, h[upto - 1], p)
            } else {
                prev
            }
        }
    }

    /// The closest pair of a tour vertex and one of the first `upto`
    /// points of `inner`, with its distance; the first pair of all,
    /// at infinite distance, where no distance is finite.
    pub open spec fn nearest(&self, h: Seq<Point>, inner: Seq<Point>, upto: nat) -> (
        u32,
        Point,
        Point,
    )
        decreases upto,
    {
        if upto == 0 {
            (INFINITE, h[0], inner[0])
        } else {
            self.nearest_in_row(
                h,
                inner[upto - 1],
                h.len(),
                self.nearest(h, inner, (upto - 1) as nat),
            )
        }
    }

    /// The fallback insertion: the interior point closest to the tour,
    /// behind the tour vertex closest to it, at the score 0.1.
    pub open spec fn fallback(&self, h: Seq<Point>, inner: Seq<Point>) -> InsertPointResult {
        let t = self.nearest(h, inner, inner.len());
        InsertPointResult { lda: TENTH, best_a: t.1, best_c: t.2 }
    }

    /// The insertion that a step makes: the selected one, or the fallback
    /// where the selected one has a score that is not above zero.
    pub open spec fn chosen<C: Fn(Point) -> (i32, i32)>(
        &self,
        grid: &SpatialGrid<C>,
        h: Seq<Point>,
        inner: Seq<Point>,
    ) -> InsertPointResult {
        let sel = self.selected(grid, h, allowance(inner.len()), h.len());
        if not_positive(sel.lda) {
            self.fallback(h, inner)
        } else {
            sel
        }
    }

    /// One step leads from the state before to the state after.
    pub open spec fn once<C: Fn(Point) -> (i32, i32)>(
        &self,
        g0: &SpatialGrid<C>,
        h0: Seq<Point>,
        i0: Seq<Point>,
        l0: Seq<InsertPointResult>,
        g1: &SpatialGrid<C>,
        h1: Seq<Point>,
        i1: Seq<Point>,
        l1: Seq<InsertPointResult>,
    ) -> bool {
        let pick = self.chosen(g0, h0, i0);
        &&& l1 == l0.push(pick)
        &&& i1 == without_first(i0, pick.best_c)
        &&& h1 == with_after_first(h0, pick.best_a, pick.best_c)
        &&& g1.wf()
        &&& g1.locator() == g0.locator()
        &&& forall|c: (i32, i32)| #[trigger]
            g1.bucket(c) == g0.bucket(c).filter(|q: Point| q != pick.best_c)
    }

    /// `steps` steps, one after the other, lead from the state before to
    /// the state after.
    pub open spec fn times<C: Fn(Point) -> (i32, i32)>(
        &self,
        g0: &SpatialGrid<C>,
        h0: Seq<Point>,
        i0: Seq<Point>,
        l0: Seq<InsertPointResult>,
        g1: &SpatialGrid<C>,
        h1: Seq<Point>,
        i1: Seq<Point>,
        l1: Seq<InsertPointResult>,
        steps: nat,
    ) -> bool
        decreases steps,
    {
        if steps == 0 {
            h1 == h0 && i1 == i0 && l1 == l0 && g1.locator() == g0.locator() && forall|
                c: (i32, i32),
            | #[trigger] g1.bucket(c) == g0.bucket(c)
        } else {
            exists|
                g: &SpatialGrid<C>,
                h: Seq<Point>,
                i: Seq<Point>,
                l: Seq<InsertPointResult>,
            |
                self.times(g0, h0, i0, l0, g, h, i, l, (steps - 1) as nat) && #[trigger] self.once(
                    g,
                    h,
                    i,
                    l,
                    g1,
                    h1,
                    i1,
                    l1,
                )
        }
    }
}

/// The closest pair is made of a tour vertex and a point of the interior.
pub proof fn lemma_nearest_sound<
    R: Fn(&Vec<Point>) -> (u32, u32),
    K: Fn(u32) -> i32,
    W: Fn(Point, Point) -> u32,
    M: Fn(Point, Point) -> Point,
    S: Fn(Point, Point, [Point; 8]) -> [u32; 8],
    D: Fn(Point, Point) -> u32,
>(k: &Kernels<R, K, W, M, S, D>, h: Seq<Point>, inner: Seq<Point>, upto: nat)
    requires
        h.len() >= 1,
        inner.len() >= 1,
        upto <= inner.len(),
    ensures
        h.contains(k.nearest(h, inner, upto).1),
        inner.contains(k.nearest(h, inner, upto).2),
    decreases upto,
{
    if upto == 0 {
        assert(h[0] == k.nearest(h, inner, upto).1);
        assert(inner[0] == k.nearest(h, inner, upto).2);
    } else {
        lemma_nearest_sound(k, h, inner, (upto - 1) as nat);
        lemma_nearest_row_sound(
            k,
            h,
            inner,
            inner[upto - 1],
            h.len(),
            k.nearest(h, inner, (upto - 1) as nat),
        );
    }
}

/// Going along the tour for one point of the interior keeps the pair made
/// of a tour vertex and a point of the interior.
pub proof fn lemma_nearest_row_sound<
    R: Fn(&Vec<Point>) -> (u32, u32),
    K: Fn(u32) -> i32,
    W: Fn(Point, Point) -> u32,
    M: Fn(Point, Point) -> Point,
    S: Fn(Point, Point, [Point; 8]) -> [u32; 8],
    D: Fn(Point, Point) -> u32,
>(
    k: &Kernels<R, K, W, M, S, D>,
    h: Seq<Point>,
    inner: Seq<Point>,
    p: Point,
    upto: nat,
    acc: (u32, Point, Point),
)
    requires
        upto <= h.len(),
        inner.contains(p),
        h.contains(acc.1),
        inner.contains(acc.2),
    ensures
        h.contains(k.nearest_in_row(h, p, upto, acc).1),
        inner.contains(k.nearest_in_row(h, p, upto, acc).2),
    decreases upto,
{
    if upto > 0 {
        lemma_nearest_row_sound(k, h, inner, p, (upto - 1) as nat, acc);
        assert(h.contains(h[upto - 1]));
    }
}

/// No tour vertex among the first `upto` is closer to `p` than the
/// distance that the row ends with, and that distance is not above the
/// one it began with.
pub proof fn lemma_nearest_row_least<
    R: Fn(&Vec<Point>) -> (u32, u32),
    K: Fn(u32) -> i32,
    W: Fn(Point, Point) -> u32,
    M: Fn(Point, Point) -> Point,
    S: Fn(Point, Point, [Point; 8]) -> [u32; 8],
    D: Fn(Point, Point) -> u32,
>(k: &Kernels<R, K, W, M, S, D>, h: Seq<Point>, p: Point, upto: nat, acc: (u32, Point, Point))
    requires
        upto <= h.len(),
        !is_nan(acc.0),
    ensures
        !is_nan(k.nearest_in_row(h, p, upto, acc).0),
        !greater(k.nearest_in_row(h, p, upto, acc).0, acc.0),
        forall|j: int|
            0 <= j < upto ==> !greater(
                k.nearest_in_row(h, p, upto, acc).0,
                #[trigger] k.gap(p, h[j]),
            ),
    decreases upto,
{
    if upto > 0 {
        lemma_nearest_row_least(k, h, p, (upto - 1) as nat, acc);
    }
}

/// No pair of a tour vertex and one of the first `upto` points of the
/// interior is closer than the distance of the closest pair.
pub proof fn lemma_nearest_least<
    R: Fn(&Vec<Point>) -> (u32, u32),
    K: Fn(u32) -> i32,
    W: Fn(Point, Point) -> u32,
    M: Fn(Point, Point) -> Point,
    S: Fn(Point, Point, [Point; 8]) -> [u32; 8],
    D: Fn(Point, Point) -> u32,
>(k: &Kernels<R, K, W, M, S, D>, h: Seq<Point>, inner: Seq<Point>, upto: nat)
    requires
        upto <= inner.len(),
    ensures
        !is_nan(k.nearest(h, inner, upto).0),
        forall|i: int, j: int|
            0 <= i < upto && 0 <= j < h.len() ==> !greater(
                k.nearest(h, inner, upto).0,
                #[trigger] k.gap(inner[i], h[j]),
            ),
    decreases upto,
{
    if upto > 0 {
        lemma_nearest_least(k, h, inner, (upto - 1) as nat);
        lemma_nearest_row_least(
            k,
            h,
            inner[upto - 1],
            h.len(),
            k.nearest(h, inner, (upto - 1) as nat),
        );
    }
}

/// The fallback insertion: the closest pair of an interior point and a
/// tour vertex, found by going through the interior and, for each of its
/// points, along the tour. A pair takes the place of the closest so far
/// only if it is closer.
pub fn nearest_pair<
    R: Fn(&Vec<Point>) -> (u32, u32),
    K: Fn(u32) -> i32,
    W: Fn(Point, Point) -> u32,
    M: Fn(Point, Point) -> Point,
    S: Fn(Point, Point, [Point; 8]) -> [u32; 8],
    D: Fn(Point, Point) -> u32,
>(hull: &Vec<Point>, inner_hull: &Vec<Point>, k: &Kernels<R, K, W, M, S, D>) -> (r:
    InsertPointResult)
    requires
        hull.len() >= 1,
        inner_hull.len() >= 1,
        k.ready(),
    ensures
        r == k.fallback(hull@, inner_hull@),
        hull@.contains(r.best_a),
        inner_hull@.contains(r.best_c),
{
    let mut least: u32 = INFINITE;
    let mut a = hull[0];
    let mut c = inner_hull[0];
    let mut i: usize = 0;
    while i < inner_hull.len()
        invariant
            i <= inner_hull.len(),
            hull.len() >= 1,
            inner_hull.len() >= 1,
            k.ready(),
            (least, a, c) == k.nearest(hull@, inner_hull@, i as nat),
        decreases inner_hull.len() - i,
    {
        let p = inner_hull[i];
        let ghost start = (least, a, c);
        let mut j: usize = 0;
        while j < hull.len()
            invariant
                j <= hull.len(),
                k.ready(),
                (least, a, c) == k.nearest_in_row(hull@, p, j as nat, start),
            decreases hull.len() - j,
        {
            let d = (k.dist)(p, hull[j]);
            if exceeds(least, d) {
                least = d;
                a = hull[j];
                c = p;
            }
            j += 1;
        }
        i += 1;
    }
    proof {
        lemma_nearest_sound(k, hull@, inner_hull@, inner_hull@.len());
    }
    InsertPointResult { lda: TENTH, best_a: a, best_c: c }
}

/// Decides what a step inserts: the selected record, or the fallback where
/// the selected record has a score that is not above zero.
pub fn settle_pick<
    R: Fn(&Vec<Point>) -> (u32, u32),
    K: Fn(u32) -> i32,
    W: Fn(Point, Point) -> u32,
    M: Fn(Point, Point) -> Point,
    S: Fn(Point, Point, [Point; 8]) -> [u32; 8],
    D: Fn(Point, Point) -> u32,
>(
    selected: InsertPointResult,
    hull: &Vec<Point>,
    inner_hull: &Vec<Point>,
    k: &Kernels<R, K, W, M, S, D>,
) -> (r: InsertPointResult)
    requires
        hull.len() >= 1,
        inner_hull.len() >= 1,
        k.ready(),
    ensures
        r == if not_positive(selected.lda) {
            k.fallback(hull@, inner_hull@)
        } else {
            selected
        },
{
    let bits = selected.lda;
    if bits % 0x8000_0000 > 0x7F80_0000 {
        selected
    } else if key_of(bits) <= 0x8000_0000 {
        nearest_pair(hull, inner_hull, k)
    } else {
        selected
    }
}

/// What a step inserts can be acted on, as long as the grid keeps points
/// of the interior only.
pub proof fn lemma_chosen_sound<
    C: Fn(Point) -> (i32, i32),
    R: Fn(&Vec<Point>) -> (u32, u32),
    K: Fn(u32) -> i32,
    W: Fn(Point, Point) -> u32,
    M: Fn(Point, Point) -> Point,
    S: Fn(Point, Point, [Point; 8]) -> [u32; 8],
    D: Fn(Point, Point) -> u32,
>(k: &Kernels<R, K, W, M, S, D>, grid: &SpatialGrid<C>, h: Seq<Point>, inner: Seq<Point>)
    requires
        h.len() >= 1,
        inner.len() >= 1,
        covered(grid, inner),
    ensures
        h.contains(k.chosen(grid, h, inner).best_a),
        inner.contains(k.chosen(grid, h, inner).best_c),
{
    lemma_selected_sound(k, grid, h, allowance(inner.len()), h.len());
    lemma_nearest_sound(k, h, inner, inner.len());
}

/// A step keeps the grid in line with the interior: a grid that kept
/// points of the interior only does so after the step, and a grid that
/// kept exactly the points of an interior without repeats does so after
/// the step.
pub proof fn lemma_once_keeps_mirror<
    C: Fn(Point) -> (i32, i32),
    R: Fn(&Vec<Point>) -> (u32, u32),
    K: Fn(u32) -> i32,
    W: Fn(Point, Point) -> u32,
    M: Fn(Point, Point) -> Point,
    S: Fn(Point, Point, [Point; 8]) -> [u32; 8],
    D: Fn(Point, Point) -> u32,
>(
    k: &Kernels<R, K, W, M, S, D>,
    g0: &SpatialGrid<C>,
    h0: Seq<Point>,
    i0: Seq<Point>,
    l0: Seq<InsertPointResult>,
    g1: &SpatialGrid<C>,
    h1: Seq<Point>,
    i1: Seq<Point>,
    l1: Seq<InsertPointResult>,
)
    requires
        k.once(g0, h0, i0, l0, g1, h1, i1, l1),
    ensures
        covered(g0, i0) ==> covered(g1, i1),
        mirrors(g0, i0) && i0.no_duplicates() ==> mirrors(g1, i1) && i1.no_duplicates(),
{
    lemma_step_keeps_mirror(g0, g1, i0, k.chosen(g0, h0, i0).best_c);
}

/// A step on a tour with a vertex and an interior with a point, under a
/// grid that keeps points of the interior only, moves one point from the
/// interior into the tour.
pub proof fn lemma_once_moves_one<
    C: Fn(Point) -> (i32, i32),
    R: Fn(&Vec<Point>) -> (u32, u32),
    K: Fn(u32) -> i32,
    W: Fn(Point, Point) -> u32,
    M: Fn(Point, Point) -> Point,
    S: Fn(Point, Point, [Point; 8]) -> [u32; 8],
    D: Fn(Point, Point) -> u32,
>(
    k: &Kernels<R, K, W, M, S, D>,
    g0: &SpatialGrid<C>,
    h0: Seq<Point>,
    i0: Seq<Point>,
    l0: Seq<InsertPointResult>,
    g1: &SpatialGrid<C>,
    h1: Seq<Point>,
    i1: Seq<Point>,
    l1: Seq<InsertPointResult>,
)
    requires
        h0.len() >= 1,
        i0.len() >= 1,
        covered(g0, i0),
        k.once(g0, h0, i0, l0, g1, h1, i1, l1),
    ensures
        h1.len() == h0.len() + 1,
        i1.len() == i0.len() - 1,
        h1.to_multiset().add(i1.to_multiset()) == h0.to_multiset().add(i0.to_multiset()),
{
    let pick = k.chosen(g0, h0, i0);
    lemma_chosen_sound(k, g0, h0, i0);
    lemma_step_conserves(h0, i0, pick.best_a, pick.best_c);
}

/// One step of the expansion: selects an insertion, falls back to the
/// closest pair where the selection has no score above zero, and carries
/// the insertion out.
pub fn expand_once<
    C: Fn(Point) -> (i32, i32),
    R: Fn(&Vec<Point>) -> (u32, u32),
    K: Fn(u32) -> i32,
    W: Fn(Point, Point) -> u32,
    M: Fn(Point, Point) -> Point,
    S: Fn(Point, Point, [Point; 8]) -> [u32; 8],
    D: Fn(Point, Point) -> u32,
>(
    hull: &mut Vec<Point>,
    inner_hull: &mut Vec<Point>,
    spatial_grid: &mut SpatialGrid<C>,
    insert_log: &mut Vec<InsertPointResult>,
    k: &Kernels<R, K, W, M, S, D>,
)
    requires
        old(hull).len() >= 1,
        old(inner_hull).len() >= 1,
        old(spatial_grid).wf(),
        k.ready(),
    ensures
        k.once(
            old(spatial_grid),
            old(hull)@,
            old(inner_hull)@,
            old(insert_log)@,
            final(spatial_grid),
            final(hull)@,
            final(inner_hull)@,
            final(insert_log)@,
        ),
{
    let n = adaptive_n(inner_hull.len());
    let selected = insert_point(hull, spatial_grid, n, k);
    let pick = settle_pick(selected, hull, inner_hull, k);
    update_hull(&pick, hull, inner_hull, spatial_grid, insert_log);
}

/// The expansion: steps are made until the interior is empty.
///
/// A count of the steps is kept against an allowance of twice the size of
/// the interior. Every step moves one point from the interior into the
/// tour, so the allowance is never used up: when the expansion ends, the
/// interior is empty and the tour holds what tour and interior held
/// before, each point as often as they held it.
pub fn expand<
    C: Fn(Point) -> (i32, i32),
    R: Fn(&Vec<Point>) -> (u32, u32),
    K: Fn(u32) -> i32,
    W: Fn(Point, Point) -> u32,
    M: Fn(Point, Point) -> Point,
    S: Fn(Point, Point, [Point; 8]) -> [u32; 8],
    D: Fn(Point, Point) -> u32,
>(
    hull: &mut Vec<Point>,
    inner_hull: &mut Vec<Point>,
    spatial_grid: &mut SpatialGrid<C>,
    insert_log: &mut Vec<InsertPointResult>,
    k: &Kernels<R, K, W, M, S, D>,
)
    requires
        old(hull).len() >= 1,
        old(spatial_grid).wf(),
        covered(old(spatial_grid), old(inner_hull)@),
        k.ready(),
    ensures
        k.times(
            old(spatial_grid),
            old(hull)@,
            old(inner_hull)@,
            old(insert_log)@,
            final(spatial_grid),
            final(hull)@,
            final(inner_hull)@,
            final(insert_log)@,
            old(inner_hull)@.len(),
        ),
        final(inner_hull)@.len() == 0,
        final(hull)@.len() == old(hull)@.len() + old(inner_hull)@.len(),
        final(hull)@.to_multiset() == old(hull)@.to_multiset().add(old(inner_hull)@.to_multiset()),
        final(insert_log)@.len() == old(insert_log)@.len() + old(inner_hull)@.len(),
        final(spatial_grid).wf(),
        forall|p: Point| !final(spatial_grid).holds(p),
{
    let total = inner_hull.len();
    let cap = iteration_cap(total);
    let mut count: usize = 0;
    let ghost g0 = *spatial_grid;
    while inner_hull.len() > 0 && count < cap
        invariant
            hull.len() >= 1,
            spatial_grid.wf(),
            covered(spatial_grid, inner_hull@),
            k.ready(),
            total == old(inner_hull)@.len(),
            cap == iteration_cap_of(total as nat),
            count + inner_hull.len() == total,
            g0 == *old(spatial_grid),
            k.times(
                &g0,
                old(hull)@,
                old(inner_hull)@,
                old(insert_log)@,
                spatial_grid,
                hull@,
                inner_hull@,
                insert_log@,
                count as nat,
            ),
            hull@.len() == old(hull)@.len() + count,
            hull@.to_multiset().add(inner_hull@.to_multiset()) == old(hull)@.to_multiset().add(
                old(inner_hull)@.to_multiset(),
            ),
            insert_log@.len() == old(insert_log)@.len() + count,
        decreases inner_hull.len(),
    {
        let ghost g = *spatial_grid;
        let ghost h = hull@;
        let ghost i = inner_hull@;
        let ghost l = insert_log@;
        expand_once(hull, inner_hull, spatial_grid, insert_log, k);
        proof {
            lemma_once_moves_one(k, &g, h, i, l, spatial_grid, hull@, inner_hull@, insert_log@);
            lemma_once_keeps_mirror(k, &g, h, i, l, spatial_grid, hull@, inner_hull@, insert_log@);
        }
        count += 1;
    }
    proof {
        broadcast use vstd::multiset::group_multiset_axioms;

        assert(inner_hull@ =~= Seq::<Point>::empty());
        inner_hull@.to_multiset_ensures();
        assert forall|p: Point| inner_hull@.to_multiset().count(p) == 0 by {
            assert(!inner_hull@.contains(p));
        }
        assert(hull@.to_multiset().add(inner_hull@.to_multiset()) =~= hull@.to_multiset());
        assert forall|p: Point| !spatial_grid.holds(p) by {
            if spatial_grid.holds(p) {
                assert(inner_hull@.contains(p));
            }
        }
    }
}

/// The grid `g` is the one that an expansion over `points` starts with
/// when the tour is `tour`: under the locator `cell_of`, each cell holds
/// the points placed in it that are not on the tour, in their order.
pub open spec fn primed_for<C: Fn(Point) -> (i32, i32)>(
    g: &SpatialGrid<C>,
    points: Seq<Point>,
    tour: Seq<Point>,
    cell_of: C,
) -> bool {
    &&& g.wf()
    &&& *g.locator() == cell_of
    &&& forall|c: (i32, i32)|
        #[trigger] g.bucket(c) == points.filter(
            |p: Point| cell_of.ensures((p,), c) && !tour.contains(p),
        )
}

/// Builds a tour through `points`: the hull first, then the expansion
/// over the points that the hull leaves out. Gives the tour and the log of
/// the insertions.
///
/// The tour is what as many steps as the hull leaves points out make of
/// the hull, from a grid that keeps exactly those points. It holds the
/// vertices of the hull and the points it left out, each as often as hull
/// and rest hold it: for points without repeats and a hull without
/// repeats that is every point, once. No points give an empty tour.
pub fn construct<
    C: Fn(Point) -> (i32, i32),
    G: Fn(Point, Point, Point) -> u32,
    R: Fn(&Vec<Point>) -> (u32, u32),
    K: Fn(u32) -> i32,
    W: Fn(Point, Point) -> u32,
    M: Fn(Point, Point) -> Point,
    S: Fn(Point, Point, [Point; 8]) -> [u32; 8],
    D: Fn(Point, Point) -> u32,
>(points: &Vec<Point>, cross: &G, cell_of: C, k: &Kernels<R, K, W, M, S, D>) -> (r: (
    Vec<Point>,
    Vec<InsertPointResult>,
))
    requires
        steady_side(cross),
        crate::precompute::steady(&cell_of),
        k.ready(),
    ensures
        hull_of(cross, points@).len() == 0 ==> r.0@.len() == 0 && r.1@.len() == 0,
        hull_of(cross, points@).len() > 0 ==> exists|g0: &SpatialGrid<C>, g1: &SpatialGrid<C>|
            primed_for(g0, points@, hull_of(cross, points@), cell_of) && #[trigger] k.times(
                g0,
                hull_of(cross, points@),
                left_out(points@, hull_of(cross, points@)),
                Seq::empty(),
                g1,
                r.0@,
                Seq::empty(),
                r.1@,
                left_out(points@, hull_of(cross, points@)).len(),
            ),
        r.0@.to_multiset() == hull_of(cross, points@).to_multiset().add(
            left_out(points@, hull_of(cross, points@)).to_multiset(),
        ),
        r.1@.len() == left_out(points@, hull_of(cross, points@)).len(),
        points@.no_duplicates() && hull_of(cross, points@).no_duplicates() ==> r.0@.to_multiset()
            == points@.to_multiset() && r.0@.len() == points@.len(),
{
    let mut hull = convex_hull(points, cross);
    let mut inner = vec_diff(points, &hull);
    let mut log: Vec<InsertPointResult> = Vec::new();
    proof {
        lemma_hull_members(cross, points@);
        if points@.no_duplicates() && hull@.no_duplicates() {
            lemma_vec_diff_splits(points@, hull@);
        }
        hull@.to_multiset_ensures();
    }
    if hull.len() == 0 {
        proof {
            assert(points@.len() == 0);
            reveal(Seq::filter);
            assert(left_out(points@, hull@) =~= Seq::<Point>::empty());
        }
        return (hull, log);
    }
    let mut grid = SpatialGrid::primed(points, &hull, cell_of);
    proof {
        let keep = |p: Point| !hull@.contains(p);
        assert forall|p: Point| grid.holds(p) implies inner@.contains(p) by {
            let w = choose|w: int| 0 <= w < points@.len() && points@[w] == p;
            points@.lemma_filter_contains(keep, w);
        }
    }
    let ghost first = grid;
    expand(&mut hull, &mut inner, &mut grid, &mut log, k);
    let r = (hull, log);
    proof {
        assert(inner@ =~= Seq::<Point>::empty());
        assert(primed_for(&first, points@, hull_of(cross, points@), cell_of));
        assert(k.times(
            &first,
            hull_of(cross, points@),
            left_out(points@, hull_of(cross, points@)),
            Seq::empty(),
            &grid,
            r.0@,
            Seq::empty(),
            r.1@,
            left_out(points@, hull_of(cross, points@)).len(),
        ));
    }
    r
}

} // verus!
