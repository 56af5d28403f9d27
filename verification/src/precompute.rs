use vstd::prelude::*;
use std::collections::HashMap;
use rustc_hash::FxBuildHasher;
use crate::shared::{
    at_most, contains_point, exceeds, greater, is_nan, not_above, Point, INFINITE, MINUS_INFINITE,
};

verus! {

#[verifier::external_type_specification]
#[verifier::external_body]
pub struct ExFxBuildHasher(FxBuildHasher);

/// The table of a grid: cells with the points they hold.
pub type CellTable = HashMap<(i32, i32), Vec<Point>, FxBuildHasher>;

/// Looks a cell up. Believed of `HashMap::get` under an `FxBuildHasher`,
/// whose hashes depend on the key alone: it finds the entry stored under
/// an equal key, and finds nothing if there is none.
#[verifier::external_body]
fn cell_get<'a>(m: &'a CellTable, cell: (i32, i32)) -> (r: Option<&'a Vec<Point>>)
    ensures
        match r {
            Some(v) => m@.contains_key(cell) && *v == m@[cell],
            None => !m@.contains_key(cell),
        },
{
    m.get(&cell)
}

/// Stores a cell. Believed of `HashMap::insert` under an `FxBuildHasher`:
/// afterwards the key maps to the new value and every other key is as
/// before.
#[verifier::external_body]
fn cell_put(m: &mut CellTable, cell: (i32, i32), v: Vec<Point>)
    ensures
        final(m)@ == old(m)@.insert(cell, v),
{
    m.insert(cell, v);
}

/// Takes a cell out. Believed of `HashMap::remove` under an
/// `FxBuildHasher`: it hands back what was stored under the key, if
/// anything was, and afterwards the key is gone and every other key is as
/// before.
#[verifier::external_body]
fn cell_take(m: &mut CellTable, cell: (i32, i32)) -> (r: Option<Vec<Point>>)
    ensures
        final(m)@ == old(m)@.remove(cell),
        match r {
            Some(v) => old(m)@.contains_key(cell) && v == old(m)@[cell],
            None => !old(m)@.contains_key(cell),
        },
{
    m.remove(&cell)
}

/// The lesser of two numbers; the other where one is no number, and the
/// first where neither is less.
pub open spec fn lower(a: u32, b: u32) -> u32 {
    if is_nan(a) {
        b
    } else if greater(a, b) {
        b
    } else {
        a
    }
}

/// The greater of two numbers; the other where one is no number, and the
/// first where neither is greater.
pub open spec fn higher(a: u32, b: u32) -> u32 {
    if is_nan(a) {
        b
    } else if greater(b, a) {
        b
    } else {
        a
    }
}

/// The least of the first coordinates of the first `upto` points, and
/// positive infinity where there is none.
pub open spec fn least_x(points: Seq<Point>, upto: nat) -> u32
    decreases upto,
{
    if upto == 0 {
        INFINITE
    } else {
        lower(least_x(points, (upto - 1) as nat), points[upto - 1].x)
    }
}

/// The greatest of the first coordinates of the first `upto` points, and
/// negative infinity where there is none.
pub open spec fn greatest_x(points: Seq<Point>, upto: nat) -> u32
    decreases upto,
{
    if upto == 0 {
        MINUS_INFINITE
    } else {
        higher(greatest_x(points, (upto - 1) as nat), points[upto - 1].x)
    }
}

/// The least of the second coordinates of the first `upto` points, and
/// positive infinity where there is none.
pub open spec fn least_y(points: Seq<Point>, upto: nat) -> u32
    decreases upto,
{
    if upto == 0 {
        INFINITE
    } else {
        lower(least_y(points, (upto - 1) as nat), points[upto - 1].y)
    }
}

/// The greatest of the second coordinates of the first `upto` points,
/// and negative infinity where there is none.
pub open spec fn greatest_y(points: Seq<Point>, upto: nat) -> u32
    decreases upto,
{
    if upto == 0 {
        MINUS_INFINITE
    } else {
        higher(greatest_y(points, (upto - 1) as nat), points[upto - 1].y)
    }
}

/// The box round a set of points: the least and the greatest of their
/// first and of their second coordinates.
#[derive(Clone, Copy, Debug, PartialEq, Eq, Structural)]
pub struct Bounds {
    pub min_x: u32,
    pub max_x: u32,
    pub min_y: u32,
    pub max_y: u32,
}

/// No point lies outside the box: none has a coordinate below the least
/// or above the greatest.
pub proof fn lemma_box_holds_all(points: Seq<Point>, upto: nat, i: int)
    requires
        0 <= i < upto <= points.len(),
    ensures
        !is_nan(least_x(points, upto)),
        !is_nan(greatest_x(points, upto)),
        !is_nan(least_y(points, upto)),
        !is_nan(greatest_y(points, upto)),
        !greater(least_x(points, upto), points[i].x),
        !greater(points[i].x, greatest_x(points, upto)),
        !greater(least_y(points, upto), points[i].y),
        !greater(points[i].y, greatest_y(points, upto)),
    decreases upto,
{
    lemma_box_is_numbers(points, (upto - 1) as nat);
    if i < upto - 1 {
        lemma_box_holds_all(points, (upto - 1) as nat, i);
    }
}

/// The sides of the box are numbers.
pub proof fn lemma_box_is_numbers(points: Seq<Point>, upto: nat)
    requires
        upto <= points.len(),
    ensures
        !is_nan(least_x(points, upto)),
        !is_nan(greatest_x(points, upto)),
        !is_nan(least_y(points, upto)),
        !is_nan(greatest_y(points, upto)),
    decreases upto,
{
    if upto > 0 {
        lemma_box_is_numbers(points, (upto - 1) as nat);
    }
}

/// The box round `points`.
pub fn bounding_box(points: &Vec<Point>) -> (b: Bounds)
    ensures
        b.min_x == least_x(points@, points@.len()),
        b.max_x == greatest_x(points@, points@.len()),
        b.min_y == least_y(points@, points@.len()),
        b.max_y == greatest_y(points@, points@.len()),
{
    let mut b = Bounds { min_x: INFINITE, max_x: MINUS_INFINITE, min_y: INFINITE, max_y: MINUS_INFINITE };
    let mut i: usize = 0;
    while i < points.len()
        invariant
            i <= points.len(),
            b.min_x == least_x(points@, i as nat),
            b.max_x == greatest_x(points@, i as nat),
            b.min_y == least_y(points@, i as nat),
            b.max_y == greatest_y(points@, i as nat),
        decreases points.len() - i,
    {
        let p = points[i];
        b = Bounds {
            min_x: lesser(b.min_x, p.x),
            max_x: larger(b.max_x, p.x),
            min_y: lesser(b.min_y, p.y),
            max_y: larger(b.max_y, p.y),
        };
        i += 1;
    }
    b
}

/// Computes [`lower`].
fn lesser(a: u32, b: u32) -> (r: u32)
    ensures
        r == lower(a, b),
{
    if a % 0x8000_0000 > 0x7F80_0000 {
        b
    } else if exceeds(a, b) {
        b
    } else {
        a
    }
}

/// Computes [`higher`].
fn larger(a: u32, b: u32) -> (r: u32)
    ensures
        r == higher(a, b),
{
    if a % 0x8000_0000 > 0x7F80_0000 {
        b
    } else if exceeds(b, a) {
        b
    } else {
        a
    }
}

/// What a table holds for a cell: nothing where the cell has no entry.
pub open spec fn bucket_in(m: Map<(i32, i32), Vec<Point>>, c: (i32, i32)) -> Seq<Point> {
    if m.contains_key(c) {
        m[c]@
    } else {
        Seq::empty()
    }
}

/// The locator answers every question, and each with one cell only.
pub open spec fn steady<C: Fn(Point) -> (i32, i32)>(cell_of: &C) -> bool {
    &&& forall|p: Point| cell_of.requires((p,))
    &&& forall|p: Point, c: (i32, i32), d: (i32, i32)|
        cell_of.ensures((p,), c) && cell_of.ensures((p,), d) ==> c == d
}

/// The squared distance is given for every two points, and always the
/// same for the same two.
pub open spec fn sure<W: Fn(Point, Point) -> u32>(dist_sq: &W) -> bool {
    &&& forall|p: Point, q: Point| dist_sq.requires((p, q))
    &&& forall|p: Point, q: Point, s: u32, t: u32|
        dist_sq.ensures((p, q), s) && dist_sq.ensures((p, q), t) ==> s == t
}

/// The square of the distance from `center` to `p`, as the caller gives
/// it.
pub open spec fn dist_sq_of<W: Fn(Point, Point) -> u32>(dist_sq: &W, center: Point, p: Point) -> u32 {
    choose|d: u32| dist_sq.ensures((center, p), d)
}

/// `p` lies within the radius of `center`: the square of its distance is
/// not above the square of the radius.
pub open spec fn inside<W: Fn(Point, Point) -> u32>(
    dist_sq: &W,
    radius_sq: u32,
    center: Point,
    p: Point,
) -> bool {
    at_most(dist_sq_of(dist_sq, center, p), radius_sq)
}

/// The locator has an answer for `p`.
pub open spec fn placed<C: Fn(Point) -> (i32, i32)>(cell_of: &C, p: Point) -> bool {
    exists|c: (i32, i32)| cell_of.ensures((p,), c)
}

/// No entry of the table is empty, and each point stands in the cell that
/// the locator gives for it.
pub open spec fn tidy<C: Fn(Point) -> (i32, i32)>(
    cell_of: &C,
    m: Map<(i32, i32), Vec<Point>>,
) -> bool {
    &&& forall|c: (i32, i32)| m.contains_key(c) ==> (#[trigger] m[c])@.len() > 0
    &&& forall|c: (i32, i32), i: int|
        m.contains_key(c) && 0 <= i < m[c]@.len() ==> cell_of.ensures((#[trigger] m[c]@[i],), c)
}

/// A filter that lets every element through changes nothing.
pub proof fn lemma_filter_keeps_all(s: Seq<Point>, pred: spec_fn(Point) -> bool)
    requires
        forall|i: int| 0 <= i < s.len() ==> pred(s[i]),
    ensures
        s.filter(pred) == s,
    decreases s.len(),
{
    reveal(Seq::filter);
    if s.len() > 0 {
        lemma_filter_keeps_all(s.drop_last(), pred);
        assert(s.drop_last().push(s.last()) =~= s);
    }
}

/// Filtering twice is filtering once for both.
pub proof fn lemma_filter_twice(
    s: Seq<Point>,
    first: spec_fn(Point) -> bool,
    second: spec_fn(Point) -> bool,
    both: spec_fn(Point) -> bool,
)
    requires
        forall|p: Point| #[trigger] both(p) == (first(p) && second(p)),
    ensures
        s.filter(first).filter(second) == s.filter(both),
    decreases s.len(),
{
    reveal(Seq::filter);
    if s.len() > 0 {
        lemma_filter_twice(s.drop_last(), first, second, both);
        if first(s.last()) {
            s.drop_last().filter(first).lemma_filter_push(s.last(), second);
        }
    }
}

/// `acc` with the points of `s` added in their order, each only if it is
/// not there yet.
pub open spec fn merged(acc: Seq<Point>, s: Seq<Point>) -> Seq<Point>
    decreases s.len(),
{
    if s.len() == 0 {
        acc
    } else {
        let m = merged(acc, s.drop_last());
        if m.contains(s.last()) {
            m
        } else {
            m.push(s.last())
        }
    }
}

/// The points of `s` in the order of their first occurrence, each once.
pub open spec fn distinct(s: Seq<Point>) -> Seq<Point> {
    merged(Seq::empty(), s)
}

/// Adding two lists one after the other is adding them joined.
pub proof fn lemma_merged_joined(acc: Seq<Point>, a: Seq<Point>, b: Seq<Point>)
    ensures
        merged(merged(acc, a), b) == merged(acc, a + b),
    decreases b.len(),
{
    if b.len() == 0 {
        assert(a + b =~= a);
    } else {
        lemma_merged_joined(acc, a, b.drop_last());
        assert((a + b).drop_last() =~= a + b.drop_last());
    }
}

/// Adds the points of `more` to `out`, each only if it is not there yet.
fn absorb(out: &mut Vec<Point>, more: &Vec<Point>)
    ensures
        final(out)@ == merged(old(out)@, more@),
{
    let mut i: usize = 0;
    proof {
        assert(more@.take(0) =~= Seq::<Point>::empty());
    }
    while i < more.len()
        invariant
            i <= more.len(),
            out@ == merged(old(out)@, more@.take(i as int)),
        decreases more.len() - i,
    {
        let p = more[i];
        proof {
            assert(more@.take(i + 1).drop_last() =~= more@.take(i as int));
        }
        if !contains_point(out, p) {
            out.push(p);
        }
        i += 1;
    }
    proof {
        assert(more@.take(more.len() as int) =~= more@);
    }
}

/// A uniform grid over the plane: each point is kept in the bucket of the
/// cell in which the locator places it.
pub struct SpatialGrid<C> {
    grid: CellTable,
    cell_of: C,
}

impl<C: Fn(Point) -> (i32, i32)> SpatialGrid<C> {
    /// The table of the grid: cells with what they hold.
    pub closed spec fn cells(&self) -> Map<(i32, i32), Vec<Point>> {
        self.grid@
    }

    /// The locator of the grid.
    pub closed spec fn locator(&self) -> &C {
        &self.cell_of
    }

    /// The points kept in cell `c`, in the order in which they came.
    pub open spec fn bucket(&self, c: (i32, i32)) -> Seq<Point> {
        bucket_in(self.cells(), c)
    }

    /// The cell in which the locator places `p`.
    pub open spec fn cell(&self, p: Point) -> (i32, i32) {
        choose|c: (i32, i32)| self.locator().ensures((p,), c)
    }

    /// The grid keeps `p`.
    pub open spec fn holds(&self, p: Point) -> bool {
        self.bucket(self.cell(p)).contains(p)
    }

    /// The grid's invariant: the locator is steady, no cell of the table is
    /// empty, and every point stands in its own cell.
    pub open spec fn wf(&self) -> bool {
        steady(self.locator()) && tidy(self.locator(), self.cells())
    }

    /// Builds the grid over `points`.
    pub fn new(points: &Vec<Point>, cell_of: C) -> (g: Self)
        requires
            steady(&cell_of),
        ensures
            g.wf(),
            *g.locator() == cell_of,
            forall|c: (i32, i32)|
                #[trigger] g.bucket(c) == points@.filter(|p: Point| cell_of.ensures((p,), c)),
            forall|p: Point| g.holds(p) <==> points@.contains(p),
    {
        let mut grid: CellTable = HashMap::default();
        let mut i: usize = 0;
        proof {
            assert forall|c: (i32, i32)| #[trigger]
                bucket_in(grid@, c) == points@.take(0).filter(
                    |p: Point| cell_of.ensures((p,), c),
                ) by {
                reveal(Seq::filter);
            }
        }
        while i < points.len()
            invariant
                i <= points.len(),
                steady(&cell_of),
                tidy(&cell_of, grid@),
                forall|c: (i32, i32)| #[trigger]
                    bucket_in(grid@, c) == points@.take(i as int).filter(
                        |p: Point| cell_of.ensures((p,), c),
                    ),
                forall|k: int| 0 <= k < i ==> placed(&cell_of, #[trigger] points@[k]),
            decreases points.len() - i,
        {
            let p = points[i];
            let c = cell_of(p);
            let ghost before = grid@;
            proof {
                assert(cell_of.ensures((p,), c));
                assert(placed(&cell_of, p));
            }
            let mut v = match cell_take(&mut grid, c) {
                Some(v) => v,
                None => Vec::new(),
            };
            v.push(p);
            proof {
                assert(v@ == bucket_in(before, c).push(p));
            }
            cell_put(&mut grid, c, v);
            proof {
                assert(points@.take(i + 1) =~= points@.take(i as int).push(p));
                assert forall|d: (i32, i32)| #[trigger]
                    bucket_in(grid@, d) == points@.take(i + 1).filter(
                        |p: Point| cell_of.ensures((p,), d),
                    ) by {
                    points@.take(i as int).lemma_filter_push(
                        p,
                        |p: Point| cell_of.ensures((p,), d),
                    );
                    assert(bucket_in(before, d) == points@.take(i as int).filter(
                        |p: Point| cell_of.ensures((p,), d),
                    ));
                    if d == c {
                    } else {
                        assert(bucket_in(grid@, d) == bucket_in(before, d));
                    }
                }
                assert forall|d: (i32, i32), k: int|
                    grid@.contains_key(d) && 0 <= k < grid@[d]@.len() implies cell_of.ensures(
                    (#[trigger] grid@[d]@[k],),
                    d,
                ) by {
                    if d == c {
                        if k < bucket_in(before, c).len() {
                            assert(before.contains_key(c));
                            assert(grid@[d]@[k] == before[c]@[k]);
                        }
                    } else {
                        assert(grid@[d] == before[d]);
                    }
                }
                assert forall|d: (i32, i32)| grid@.contains_key(d) implies (#[trigger] grid@[d])@.len()
                    > 0 by {
                    if d != c {
                        assert(grid@[d] == before[d]);
                    }
                }
            }
            i += 1;
        }
        proof {
            assert(points@.take(points.len() as int) =~= points@);
        }
        let g = SpatialGrid { grid, cell_of };
        proof {
            assert forall|p: Point| g.holds(p) <==> points@.contains(p) by {
                let c = g.cell(p);
                let here = |q: Point| g.cell_of.ensures((q,), c);
                assert(g.bucket(c) == points@.filter(here));
                if g.holds(p) {
                    points@.lemma_filter_contains_rev(here, p);
                }
                if points@.contains(p) {
                    let k = choose|k: int| 0 <= k < points@.len() && points@[k] == p;
                    assert(placed(&g.cell_of, points@[k]));
                    points@.lemma_filter_contains(here, k);
                }
            }
        }
        g
    }

    /// The grid for an expansion: built over all `points`, with the
    /// vertices of the tour taken out again, so that it keeps exactly the
    /// points that are not on the tour.
    pub fn primed(points: &Vec<Point>, tour: &Vec<Point>, cell_of: C) -> (g: Self)
        requires
            steady(&cell_of),
        ensures
            g.wf(),
            *g.locator() == cell_of,
            forall|c: (i32, i32)|
                #[trigger] g.bucket(c) == points@.filter(
                    |p: Point| cell_of.ensures((p,), c) && !tour@.contains(p),
                ),
            forall|p: Point| g.holds(p) <==> (points@.contains(p) && !tour@.contains(p)),
    {
        let mut g = SpatialGrid::new(points, cell_of);
        let mut i: usize = 0;
        proof {
            assert(tour@.take(0) =~= Seq::<Point>::empty());
            assert forall|c: (i32, i32)| #[trigger]
                g.bucket(c) == points@.filter(
                    |p: Point| cell_of.ensures((p,), c) && !tour@.take(0).contains(p),
                ) by {
                assert((|p: Point| cell_of.ensures((p,), c)) =~= (|p: Point|
                    cell_of.ensures((p,), c) && !tour@.take(0).contains(p)));
            }
        }
        while i < tour.len()
            invariant
                i <= tour.len(),
                g.wf(),
                *g.locator() == cell_of,
                forall|c: (i32, i32)|
                    #[trigger] g.bucket(c) == points@.filter(
                        |p: Point| cell_of.ensures((p,), c) && !tour@.take(i as int).contains(p),
                    ),
                forall|p: Point|
                    g.holds(p) <==> (points@.contains(p) && !tour@.take(i as int).contains(p)),
            decreases tour.len() - i,
        {
            let ghost before = g;
            let t = tour[i];
            g.remove_point(t);
            proof {
                let head = tour@.take(i as int);
                let more = tour@.take(i + 1);
                assert(more =~= head.push(t));
                assert forall|p: Point| more.contains(p) <==> (head.contains(p) || p == t) by {
                    if head.contains(p) {
                        let w = choose|w: int| 0 <= w < head.len() && head[w] == p;
                        assert(more[w] == p);
                    }
                    if more.contains(p) {
                        let w = choose|w: int| 0 <= w < more.len() && more[w] == p;
                        if w < head.len() {
                            assert(head[w] == p);
                        }
                    }
                    assert(more[i as int] == t);
                }
                assert forall|c: (i32, i32)| #[trigger]
                    g.bucket(c) == points@.filter(
                        |p: Point| cell_of.ensures((p,), c) && !more.contains(p),
                    ) by {
                    assert(g.bucket(c) == before.bucket(c).filter(|q: Point| q != t));
                    lemma_filter_twice(
                        points@,
                        |p: Point| cell_of.ensures((p,), c) && !head.contains(p),
                        |q: Point| q != t,
                        |p: Point| cell_of.ensures((p,), c) && !more.contains(p),
                    );
                }
            }
            i += 1;
        }
        proof {
            assert(tour@.take(tour.len() as int) =~= tour@);
        }
        g
    }

    /// Whether the grid keeps `point`: looked for in the point's own cell.
    pub fn contains_point(&self, point: Point) -> (r: bool)
        requires
            self.wf(),
        ensures
            r == self.holds(point),
    {
        let c = (self.cell_of)(point);
        match cell_get(&self.grid, c) {
            Some(v) => contains_point(v, point),
            None => false,
        }
    }

    /// Takes `point` out of its cell, as often as it stands there, and
    /// drops the cell from the table if that leaves it empty. A point that
    /// the grid does not keep changes nothing.
    pub fn remove_point(&mut self, point: Point)
        requires
            old(self).wf(),
        ensures
            final(self).wf(),
            final(self).locator() == old(self).locator(),
            forall|c: (i32, i32)|
                #[trigger] final(self).bucket(c) == old(self).bucket(c).filter(
                    |q: Point| q != point,
                ),
            forall|q: Point| final(self).holds(q) <==> (old(self).holds(q) && q != point),
    {
        let c = (self.cell_of)(point);
        let ghost start = *self;
        let ghost before = self.grid@;
        let ghost others = |q: Point| q != point;
        proof {
            assert forall|d: (i32, i32)| d != c implies #[trigger] bucket_in(before, d).filter(others)
                == bucket_in(before, d) by {
                lemma_filter_keeps_all(bucket_in(before, d), others);
            }
        }
        match cell_take(&mut self.grid, c) {
            None => {
                proof {
                    assert(self.grid@ =~= before);
                    lemma_filter_keeps_all(bucket_in(before, c), others);
                }
            },
            Some(v) => {
                let mut kept: Vec<Point> = Vec::new();
                let mut i: usize = 0;
                proof {
                    assert(v@.take(0) =~= Seq::<Point>::empty());
                }
                while i < v.len()
                    invariant
                        i <= v.len(),
                        others == |q: Point| q != point,
                        kept@ == v@.take(i as int).filter(others),
                    decreases v.len() - i,
                {
                    let q = v[i];
                    proof {
                        assert(v@.take(i + 1) =~= v@.take(i as int).push(q));
                        v@.take(i as int).lemma_filter_push(q, others);
                    }
                    if q != point {
                        kept.push(q);
                    }
                    i += 1;
                }
                proof {
                    assert(v@.take(v.len() as int) =~= v@);
                    assert forall|k: int| 0 <= k < kept@.len() implies self.cell_of.ensures(
                        (#[trigger] kept@[k],),
                        c,
                    ) by {
                        assert(v@.filter(others).contains(kept@[k]));
                        v@.lemma_filter_contains_rev(others, kept@[k]);
                        let j = choose|j: int| 0 <= j < v@.len() && v@[j] == kept@[k];
                        assert(before[c]@[j] == kept@[k]);
                    }
                }
                if kept.len() > 0 {
                    cell_put(&mut self.grid, c, kept);
                }
            },
        }
        proof {
            assert forall|d: (i32, i32)| #[trigger]
                bucket_in(self.grid@, d) == bucket_in(before, d).filter(others) by {
                if d != c {
                    assert(bucket_in(self.grid@, d) == bucket_in(before, d));
                }
            }
            lemma_holds_after_removal(&start, self, point);
        }
    }

    /// The points of cell `(x, y)` that lie close to `center`.
    pub open spec fn cell_near<W: Fn(Point, Point) -> u32>(
        &self,
        dist_sq: &W,
        radius_sq: u32,
        center: Point,
        x: int,
        y: int,
    ) -> Seq<Point> {
        if i32::MIN <= x <= i32::MAX && i32::MIN <= y <= i32::MAX {
            self.bucket((x as i32, y as i32)).filter(|p: Point| inside(dist_sq, radius_sq, center, p))
        } else {
            Seq::empty()
        }
    }

    /// [`Self::cell_near`] over the `count` cells of column `x` from row
    /// `y0` upwards, joined.
    pub open spec fn column_near<W: Fn(Point, Point) -> u32>(
        &self,
        dist_sq: &W,
        radius_sq: u32,
        center: Point,
        x: int,
        y0: int,
        count: nat,
    ) -> Seq<Point>
        decreases count,
    {
        if count == 0 {
            Seq::empty()
        } else {
            self.column_near(dist_sq, radius_sq, center, x, y0, (count - 1) as nat) + self.cell_near(
                dist_sq,
                radius_sq,
                center,
                x,
                y0 + count - 1,
            )
        }
    }

    /// [`Self::column_near`] over the `count` columns from `x0` on, each
    /// `side` cells high, joined.
    pub open spec fn block_near<W: Fn(Point, Point) -> u32>(
        &self,
        dist_sq: &W,
        radius_sq: u32,
        center: Point,
        x0: int,
        y0: int,
        side: nat,
        count: nat,
    ) -> Seq<Point>
        decreases count,
    {
        if count == 0 {
            Seq::empty()
        } else {
            self.block_near(dist_sq, radius_sq, center, x0, y0, side, (count - 1) as nat) + self.column_near(
                dist_sq,
                radius_sq,
                center,
                x0 + count - 1,
                y0,
                side,
            )
        }
    }

    /// What a query round `center` gives: the points that lie
    /// close to it, from the cells no more than `reach` away from its own
    /// cell in either direction, column by column.
    pub open spec fn around<W: Fn(Point, Point) -> u32>(
        &self,
        dist_sq: &W,
        radius_sq: u32,
        center: Point,
        reach: int,
    ) -> Seq<Point> {
        let c = self.cell(center);
        let side = if reach < 0 {
            0nat
        } else {
            (2 * reach + 1) as nat
        };
        self.block_near(dist_sq, radius_sq, center, c.0 - reach, c.1 - reach, side, side)
    }

    /// The points of the grid close to `center`.
    ///
    /// The cells looked at are those no more than `reach` cells away from
    /// the cell of `center`; `dist_sq(center, p)` is asked for the square
    /// of the distance from `center` to `p`, which must not be above
    /// `radius_sq`.
    pub fn query_radius<W: Fn(Point, Point) -> u32>(
        &self,
        center: Point,
        radius_sq: u32,
        reach: i32,
        dist_sq: &W,
    ) -> (r: Vec<Point>)
        requires
            self.wf(),
            sure(dist_sq),
        ensures
            r@ == self.around(dist_sq, radius_sq, center, reach as int),
    {
        let c = (self.cell_of)(center);
        let mut out: Vec<Point> = Vec::new();
        if reach < 0 {
            return out;
        }
        let side: i64 = 2 * (reach as i64) + 1;
        let x0: i64 = c.0 as i64 - reach as i64;
        let y0: i64 = c.1 as i64 - reach as i64;
        let ghost close = |p: Point| inside(dist_sq, radius_sq, center, p);
        let mut ix: i64 = 0;
        while ix < side
            invariant
                0 <= ix <= side,
                side == 2 * reach + 1,
                0 <= reach,
                x0 == c.0 - reach,
                y0 == c.1 - reach,
                self.wf(),
                sure(dist_sq),
                close == |p: Point| inside(dist_sq, radius_sq, center, p),
                out@ == self.block_near(dist_sq, radius_sq, center, x0 as int, y0 as int, side as nat, ix as nat),
            decreases side - ix,
        {
            let x: i64 = x0 + ix;
            let ghost done = out@;
            let mut iy: i64 = 0;
            while iy < side
                invariant
                    0 <= iy <= side,
                    side == 2 * reach + 1,
                    0 <= reach,
                    x == x0 + ix,
                    x0 == c.0 - reach,
                    y0 == c.1 - reach,
                    0 <= ix < side,
                    self.wf(),
                    sure(dist_sq),
                    close == |p: Point| inside(dist_sq, radius_sq, center, p),
                    out@ == done + self.column_near(dist_sq, radius_sq, center, x as int, y0 as int, iy as nat),
                decreases side - iy,
            {
                let y: i64 = y0 + iy;
                let ghost col = out@;
                if -2147483648 <= x && x <= 2147483647 && -2147483648 <= y && y <= 2147483647 {
                    match cell_get(&self.grid, (x as i32, y as i32)) {
                        Some(v) => {
                            let mut k: usize = 0;
                            proof {
                                assert(v@.take(0) =~= Seq::<Point>::empty());
                                reveal(Seq::filter);
                                assert(col + v@.take(0).filter(close) =~= col);
                            }
                            while k < v.len()
                                invariant
                                    k <= v.len(),
                                    sure(dist_sq),
                                    close == |p: Point| inside(dist_sq, radius_sq, center, p),
                                    out@ == col + v@.take(k as int).filter(close),
                                decreases v.len() - k,
                            {
                                let q = v[k];
                                proof {
                                    assert(v@.take(k + 1) =~= v@.take(k as int).push(q));
                                    v@.take(k as int).lemma_filter_push(q, close);
                                }
                                if not_above(dist_sq(center, q), radius_sq) {
                                    out.push(q);
                                    proof {
                                        assert(out@ =~= col + v@.take(k + 1).filter(close));
                                    }
                                }
                                k += 1;
                            }
                            proof {
                                assert(v@.take(v.len() as int) =~= v@);
                            }
                        },
                        None => {
                            proof {
                                reveal(Seq::filter);
                                assert(col + Seq::<Point>::empty().filter(close) =~= col);
                            }
                        },
                    }
                } else {
                    proof {
                        assert(col + Seq::<Point>::empty() =~= col);
                    }
                }
                proof {
                    let here = self.cell_near(dist_sq, radius_sq, center, x as int, y as int);
                    assert(out@ == col + here);
                    assert(done + (self.column_near(dist_sq, radius_sq, center, x as int, y0 as int, iy as nat)
                        + here) =~= col + here);
                }
                iy += 1;
            }
            proof {
                let column = self.column_near(dist_sq, radius_sq, center, x as int, y0 as int, side as nat);
                assert(out@ == done + column);
            }
            ix += 1;
        }
        out
    }

    /// The candidates for an edge: what [`Self::query_radius`] gives round
    /// its start, its end and its middle, in that order, each point once.
    pub fn query_edge_candidates<W: Fn(Point, Point) -> u32>(
        &self,
        edge_start: Point,
        edge_end: Point,
        middle: Point,
        radius_sq: u32,
        reach: i32,
        dist_sq: &W,
    ) -> (r: Vec<Point>)
        requires
            self.wf(),
            sure(dist_sq),
        ensures
            r@ == distinct(
                self.around(dist_sq, radius_sq, edge_start, reach as int) + self.around(
                    dist_sq,
                    radius_sq,
                    edge_end,
                    reach as int,
                ) + self.around(dist_sq, radius_sq, middle, reach as int),
            ),
    {
        let mut out: Vec<Point> = Vec::new();
        let a = self.query_radius(edge_start, radius_sq, reach, dist_sq);
        absorb(&mut out, &a);
        let b = self.query_radius(edge_end, radius_sq, reach, dist_sq);
        absorb(&mut out, &b);
        let m = self.query_radius(middle, radius_sq, reach, dist_sq);
        absorb(&mut out, &m);
        proof {
            lemma_merged_joined(Seq::empty(), a@, b@);
            lemma_merged_joined(Seq::empty(), a@ + b@, m@);
        }
        out
    }
}

/// What a grid keeps after a point was taken out of it: what it kept
/// before, but for that point.
pub proof fn lemma_holds_after_removal<C: Fn(Point) -> (i32, i32)>(
    before: &SpatialGrid<C>,
    after: &SpatialGrid<C>,
    c: Point,
)
    requires
        after.locator() == before.locator(),
        forall|d: (i32, i32)| #[trigger] after.bucket(d) == before.bucket(d).filter(|q: Point| q != c),
    ensures
        forall|p: Point| after.holds(p) <==> (before.holds(p) && p != c),
{
    assert forall|p: Point| after.holds(p) <==> (before.holds(p) && p != c) by {
        let d = before.cell(p);
        let others = |q: Point| q != c;
        assert(after.cell(p) == d);
        assert(after.bucket(d) == before.bucket(d).filter(others));
        if after.holds(p) {
            before.bucket(d).lemma_filter_contains_rev(others, p);
            let w = choose|w: int|
                0 <= w < after.bucket(d).len() && after.bucket(d)[w] == p;
            before.bucket(d).lemma_filter_pred(others, w);
        }
        if before.holds(p) && p != c {
            let w = choose|w: int| 0 <= w < before.bucket(d).len() && before.bucket(d)[w] == p;
            before.bucket(d).lemma_filter_contains(others, w);
        }
    }
}

} // verus!
