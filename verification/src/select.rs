use vstd::prelude::*;
use crate::precompute::{distinct, SpatialGrid};
use crate::relp::InsertPointResult;
use crate::shared::{exceeds, greater, Point};
use crate::tour::next_index;

verus! {

/// The bit pattern of -1, the score of an edge without a candidate.
pub const MINUS_ONE: u32 = 0xBF80_0000;

/// The bit pattern of 0.1, the score given to a fallback insertion.
pub const TENTH: u32 = 0x3DCC_CCCD;

/// The bit pattern of 100, the search radius for a tour of fewer than
/// three vertices.
pub const HUNDRED: u32 = 0x42C8_0000;

/// The bit pattern of 10000, the square of [`HUNDRED`].
pub const HUNDRED_SQUARED: u32 = 0x461C_4000;

/// The point whose coordinates are both zero.
pub open spec fn origin() -> Point {
    Point { x: 0, y: 0 }
}

/// The record that stands for "no candidate".
pub open spec fn no_pick() -> InsertPointResult {
    InsertPointResult { lda: MINUS_ONE, best_a: origin(), best_c: origin() }
}

/// The numeric questions that the expansion puts to its caller.
///
/// * `radius_of(tour)`: the search radius for a tour of three vertices or
///   more, twice the mean length of its edges, and the square of that
///   radius;
/// * `reach_of(radius)`: how many cells of the grid the radius spans;
/// * `dist_sq(center, p)`: the square of the distance from `center` to
///   `p`;
/// * `mid_of(a, b)`: the middle of the edge from `a` to `b`;
/// * `score(a, b, lanes)`: how well each of eight points would sit
///   between `a` and `b`, lane by lane;
/// * `dist(p, q)`: how far `p` is from `q`.
///
/// Radii, scores and distances are bit patterns of single-precision
/// numbers.
pub struct Kernels<R, K, W, M, S, D> {
    pub radius_of: R,
    pub reach_of: K,
    pub dist_sq: W,
    pub mid_of: M,
    pub score: S,
    pub dist: D,
}

impl<
    R: Fn(&Vec<Point>) -> (u32, u32),
    K: Fn(u32) -> i32,
    W: Fn(Point, Point) -> u32,
    M: Fn(Point, Point) -> Point,
    S: Fn(Point, Point, [Point; 8]) -> [u32; 8],
    D: Fn(Point, Point) -> u32,
> Kernels<R, K, W, M, S, D> {
    /// Every question is answered, and the same question always with the
    /// same answer.
    pub open spec fn ready(&self) -> bool {
        &&& forall|h: &Vec<Point>| self.radius_of.requires((h,))
        &&& forall|h1: &Vec<Point>, h2: &Vec<Point>, r1: (u32, u32), r2: (u32, u32)|
            h1@ == h2@ && self.radius_of.ensures((h1,), r1) && self.radius_of.ensures((h2,), r2)
                ==> r1 == r2
        &&& forall|r: u32| self.reach_of.requires((r,))
        &&& forall|r: u32, k1: i32, k2: i32|
            self.reach_of.ensures((r,), k1) && self.reach_of.ensures((r,), k2) ==> k1 == k2
        &&& crate::precompute::sure(&self.dist_sq)
        &&& forall|a: Point, b: Point| self.mid_of.requires((a, b))
        &&& forall|a: Point, b: Point, m1: Point, m2: Point|
            self.mid_of.ensures((a, b), m1) && self.mid_of.ensures((a, b), m2) ==> m1 == m2
        &&& forall|a: Point, b: Point, lanes: [Point; 8]| self.score.requires((a, b, lanes))
        &&& forall|a: Point, b: Point, l1: [Point; 8], l2: [Point; 8], s1: [u32; 8], s2: [u32; 8]|
            l1@ == l2@ && self.score.ensures((a, b, l1), s1) && self.score.ensures((a, b, l2), s2)
                ==> s1@ == s2@
        &&& forall|p: Point, q: Point| self.dist.requires((p, q))
        &&& forall|p: Point, q: Point, d1: u32, d2: u32|
            self.dist.ensures((p, q), d1) && self.dist.ensures((p, q), d2) ==> d1 == d2
    }

    /// `r` is an answer to the question for the search radius of `h`.
    pub open spec fn radius_is(&self, h: Seq<Point>, r: (u32, u32)) -> bool {
        exists|hv: &Vec<Point>| hv@ == h && #[trigger] self.radius_of.ensures((hv,), r)
    }

    /// The search radius for the tour `h`, and its square: as the caller
    /// gives them, but 100 for a tour of fewer than three vertices.
    pub open spec fn radius(&self, h: Seq<Point>) -> (u32, u32) {
        if h.len() < 3 {
            (HUNDRED, HUNDRED_SQUARED)
        } else {
            choose|r: (u32, u32)| self.radius_is(h, r)
        }
    }

    /// The number of cells that are looked at to either side for
    /// `radius`: as many as the caller says the radius spans, and one at
    /// least.
    pub open spec fn reach(&self, radius: u32) -> i32 {
        let spans = choose|k: i32| self.reach_of.ensures((radius,), k);
        if spans < 1 {
            1
        } else {
            spans
        }
    }

    /// The middle of the edge from `a` to `b`.
    pub open spec fn mid(&self, a: Point, b: Point) -> Point {
        choose|m: Point| self.mid_of.ensures((a, b), m)
    }

    /// `out` is an answer to the question for the scores of the eight
    /// points `block`.
    pub open spec fn batch_is(&self, a: Point, b: Point, block: Seq<Point>, out: Seq<u32>) -> bool {
        exists|lanes: [Point; 8], res: [u32; 8]|
            lanes@ == block && res@ == out && #[trigger] self.score.ensures((a, b, lanes), res)
    }

    /// The scores of the eight points `block` for the edge from `a` to
    /// `b`.
    pub open spec fn batch(&self, a: Point, b: Point, block: Seq<Point>) -> Seq<u32> {
        choose|out: Seq<u32>| self.batch_is(a, b, block, out)
    }

    /// The score of candidate `i` of `cands` for the edge from `a` to `b`:
    /// that of its lane in the block it is scored with.
    pub open spec fn lda(&self, a: Point, b: Point, cands: Seq<Point>, i: int) -> u32 {
        self.batch(a, b, block_of(cands, i / 8))[i % 8]
    }

    /// The distance from `p` to `q`.
    pub open spec fn gap(&self, p: Point, q: Point) -> u32 {
        choose|d: u32| self.dist.ensures((p, q), d)
    }

    /// What the grid offers for edge `j` of the tour `h`.
    pub open spec fn candidates<C: Fn(Point) -> (i32, i32)>(
        &self,
        grid: &SpatialGrid<C>,
        h: Seq<Point>,
        j: int,
    ) -> Seq<Point> {
        let radius_sq = self.radius(h).1;
        let reach = self.reach(self.radius(h).0) as int;
        let a = h[j];
        let b = h[next_index(h.len() as int, j)];
        distinct(
            grid.around(&self.dist_sq, radius_sq, a, reach) + grid.around(
                &self.dist_sq,
                radius_sq,
                b,
                reach,
            ) + grid.around(&self.dist_sq, radius_sq, self.mid(a, b), reach),
        )
    }

    /// The best of the first `upto` of the candidates `cands` for the edge
    /// from `a` to `b`: each candidate that scores higher than the best
    /// before it takes its place.
    pub open spec fn scored(
        &self,
        a: Point,
        b: Point,
        cands: Seq<Point>,
        upto: nat,
    ) -> InsertPointResult
        decreases upto,
    {
        if upto == 0 {
            InsertPointResult { lda: MINUS_ONE, best_a: a, best_c: origin() }
        } else {
            let best = self.scored(a, b, cands, (upto - 1) as nat);
            let c = cands[upto - 1];
            let s = self.lda(a, b, cands, upto - 1);
            if greater(s, best.lda) {
                InsertPointResult { lda: s, best_a: a, best_c: c }
            } else {
                best
            }
        }
    }

    /// The best insertion into edge `j` of the tour `h`, with no more than
    /// `n` candidates looked at.
    pub open spec fn edge_result<C: Fn(Point) -> (i32, i32)>(
        &self,
        grid: &SpatialGrid<C>,
        h: Seq<Point>,
        j: int,
        n: nat,
    ) -> InsertPointResult {
        let u = usable(grid, self.candidates(grid, h, j), n);
        if u.len() == 0 {
            no_pick()
        } else {
            self.scored(h[j], h[next_index(h.len() as int, j)], u, u.len())
        }
    }

    /// The best insertion into one of the first `upto` edges of `h`.
    pub open spec fn selected<C: Fn(Point) -> (i32, i32)>(
        &self,
        grid: &SpatialGrid<C>,
        h: Seq<Point>,
        n: nat,
        upto: nat,
    ) -> InsertPointResult
        decreases upto,
    {
        if upto == 0 {
            no_pick()
        } else {
            pick_of(
                self.selected(grid, h, n, (upto - 1) as nat),
                self.edge_result(grid, h, upto - 1, n),
            )
        }
    }
}

/// The `chunk`-th block of eight of the candidates `cands`. Lanes beyond
/// the last candidate hold the origin.
pub open spec fn block_of(cands: Seq<Point>, chunk: int) -> Seq<Point> {
    Seq::new(
        8,
        |l: int|
            if 8 * chunk + l < cands.len() {
                cands[8 * chunk + l]
            } else {
                origin()
            },
    )
}

/// How many candidates an edge may have when `n` are asked for: `n`, but
/// no more than 32 and no fewer than one.
pub open spec fn candidate_cap(n: nat) -> nat {
    if n == 0 {
        1
    } else if n > 32 {
        32
    } else {
        n
    }
}

/// The candidates that are looked at: those that the grid still keeps, up
/// to the cap.
pub open spec fn usable<C: Fn(Point) -> (i32, i32)>(
    grid: &SpatialGrid<C>,
    cands: Seq<Point>,
    n: nat,
) -> Seq<Point> {
    let kept = cands.filter(|p: Point| grid.holds(p));
    if kept.len() > candidate_cap(n) {
        kept.take(candidate_cap(n) as int)
    } else {
        kept
    }
}

/// Of two records the one with the higher score; the first where neither
/// is higher.
pub open spec fn pick_of(x: InsertPointResult, y: InsertPointResult) -> InsertPointResult {
    if greater(y.lda, x.lda) {
        y
    } else {
        x
    }
}

/// Computes [`pick_of`].
pub fn better_of(x: InsertPointResult, y: InsertPointResult) -> (r: InsertPointResult)
    ensures
        r == pick_of(x, y),
{
    if exceeds(y.lda, x.lda) {
        y
    } else {
        x
    }
}

/// The record that stands for "no candidate".
pub fn sentinel() -> (r: InsertPointResult)
    ensures
        r == no_pick(),
{
    InsertPointResult { lda: MINUS_ONE, best_a: Point { x: 0, y: 0 }, best_c: Point { x: 0, y: 0 } }
}

/// The candidates of `cands` that the grid still keeps, up to the cap for
/// `n`.
pub fn keep_present<C: Fn(Point) -> (i32, i32)>(
    cands: &Vec<Point>,
    grid: &SpatialGrid<C>,
    n: usize,
) -> (r: Vec<Point>)
    requires
        grid.wf(),
    ensures
        r@ == usable(grid, cands@, n as nat),
{
    let cap: usize = if n == 0 {
        1
    } else if n > 32 {
        32
    } else {
        n
    };
    let ghost kept = |p: Point| grid.holds(p);
    let mut out: Vec<Point> = Vec::new();
    let mut i: usize = 0;
    proof {
        assert(cands@.take(0) =~= Seq::<Point>::empty());
    }
    while i < cands.len() && out.len() < cap
        invariant
            i <= cands.len(),
            grid.wf(),
            cap == candidate_cap(n as nat),
            kept == |p: Point| grid.holds(p),
            out@ == cands@.take(i as int).filter(kept),
            out.len() <= cap,
        decreases cands.len() - i,
    {
        let p = cands[i];
        proof {
            assert(cands@.take(i + 1) =~= cands@.take(i as int).push(p));
            cands@.take(i as int).lemma_filter_push(p, kept);
        }
        if grid.contains_point(p) {
            out.push(p);
        }
        i += 1;
    }
    proof {
        let head = cands@.take(i as int);
        let rest = cands@.skip(i as int);
        assert(head + rest =~= cands@);
        Seq::filter_distributes_over_add(head, rest, kept);
        assert(cands@.filter(kept) == head.filter(kept) + rest.filter(kept));
        if i == cands.len() {
            assert(head =~= cands@);
        } else {
            assert((head.filter(kept) + rest.filter(kept)).take(cap as int) =~= head.filter(kept));
            if cands@.filter(kept).len() == cap {
                assert(head.filter(kept) + rest.filter(kept) =~= head.filter(kept));
            }
        }
    }
    out
}

/// The best of the candidates `valid` for the edge from `a` to `b`; the
/// record for "no candidate" where there is none.
///
/// The candidates are scored eight at a time. A block that the candidates
/// do not fill is padded with the origin, and the scores of the padded
/// lanes are not looked at.
pub fn edge_best<
    R: Fn(&Vec<Point>) -> (u32, u32),
    K: Fn(u32) -> i32,
    W: Fn(Point, Point) -> u32,
    M: Fn(Point, Point) -> Point,
    S: Fn(Point, Point, [Point; 8]) -> [u32; 8],
    D: Fn(Point, Point) -> u32,
>(a: Point, b: Point, valid: &Vec<Point>, k: &Kernels<R, K, W, M, S, D>) -> (r: InsertPointResult)
    requires
        k.ready(),
    ensures
        r == if valid@.len() == 0 {
            no_pick()
        } else {
            k.scored(a, b, valid@, valid@.len())
        },
{
    let n = valid.len();
    if n == 0 {
        return sentinel();
    }
    let mut best = InsertPointResult { lda: MINUS_ONE, best_a: a, best_c: Point { x: 0, y: 0 } };
    let mut base: usize = 0;
    let mut chunk: usize = 0;
    while base < n
        invariant
            n == valid.len(),
            base == if 8 * chunk < n {
                8 * chunk
            } else {
                n as int
            },
            k.ready(),
            best == k.scored(a, b, valid@, base as nat),
        decreases n - base,
    {
        let len: usize = if n - base < 8 {
            n - base
        } else {
            8
        };
        let mut lanes: [Point; 8] = [Point { x: 0, y: 0 };8];
        let mut l: usize = 0;
        while l < len
            invariant
                l <= len <= 8,
                base + len <= n,
                n == valid.len(),
                forall|j: int| 0 <= j < l ==> lanes@[j] == valid@[base + j],
                forall|j: int| l <= j < 8 ==> lanes@[j] == origin(),
            decreases len - l,
        {
            lanes[l] = valid[base + l];
            l += 1;
        }
        proof {
            assert(lanes@ =~= block_of(valid@, chunk as int));
        }
        let scores = (k.score)(a, b, lanes);
        proof {
            assert(k.batch_is(a, b, lanes@, scores@));
            let other = k.batch(a, b, block_of(valid@, chunk as int));
            assert(k.batch_is(a, b, lanes@, other));
            assert(scores@ == other);
        }
        let mut l: usize = 0;
        while l < len
            invariant
                l <= len <= 8,
                base + len <= n,
                base == 8 * chunk,
                n == valid.len(),
                scores@ == k.batch(a, b, block_of(valid@, chunk as int)),
                best == k.scored(a, b, valid@, (base + l) as nat),
            decreases len - l,
        {
            proof {
                assert((base + l) / 8 == chunk && (base + l) % 8 == l) by (nonlinear_arith)
                    requires
                        base == 8 * chunk,
                        l < 8,
                ;
            }
            let s = scores[l];
            if exceeds(s, best.lda) {
                best = InsertPointResult { lda: s, best_a: a, best_c: valid[base + l] };
            }
            l += 1;
        }
        base = base + len;
        chunk = chunk + 1;
    }
    best
}

/// The best insertion into edge `j` of the tour.
///
/// The candidates come from the grid, round the two ends of the edge and
/// its middle; those that the grid still keeps are scored, up to the cap
/// for `n`.
pub fn edge_pick<
    C: Fn(Point) -> (i32, i32),
    R: Fn(&Vec<Point>) -> (u32, u32),
    K: Fn(u32) -> i32,
    W: Fn(Point, Point) -> u32,
    M: Fn(Point, Point) -> Point,
    S: Fn(Point, Point, [Point; 8]) -> [u32; 8],
    D: Fn(Point, Point) -> u32,
>(
    hull: &Vec<Point>,
    j: usize,
    spatial_grid: &SpatialGrid<C>,
    n: usize,
    radius_sq: u32,
    reach: i32,
    k: &Kernels<R, K, W, M, S, D>,
) -> (r: InsertPointResult)
    requires
        j < hull.len(),
        spatial_grid.wf(),
        k.ready(),
        radius_sq == k.radius(hull@).1,
        reach == k.reach(k.radius(hull@).0),
    ensures
        r == k.edge_result(spatial_grid, hull@, j as int, n as nat),
{
    let a = hull[j];
    let b = hull[if j + 1 == hull.len() {
        0
    } else {
        j + 1
    }];
    let middle = (k.mid_of)(a, b);
    let cands = spatial_grid.query_edge_candidates(a, b, middle, radius_sq, reach, &k.dist_sq);
    let valid = keep_present(&cands, spatial_grid, n);
    edge_best(a, b, &valid, k)
}

/// The search radius for the tour with its square, and the number of
/// cells to look at to either side.
pub fn search_frame<
    R: Fn(&Vec<Point>) -> (u32, u32),
    K: Fn(u32) -> i32,
    W: Fn(Point, Point) -> u32,
    M: Fn(Point, Point) -> Point,
    S: Fn(Point, Point, [Point; 8]) -> [u32; 8],
    D: Fn(Point, Point) -> u32,
>(hull: &Vec<Point>, k: &Kernels<R, K, W, M, S, D>) -> (r: ((u32, u32), i32))
    requires
        k.ready(),
    ensures
        r.0 == k.radius(hull@),
        r.1 == k.reach(r.0.0),
{
    let radius = if hull.len() < 3 {
        (HUNDRED, HUNDRED_SQUARED)
    } else {
        let given = (k.radius_of)(hull);
        proof {
            assert(k.radius_is(hull@, given));
        }
        given
    };
    let spans = (k.reach_of)(radius.0);
    let reach = if spans < 1 {
        1
    } else {
        spans
    };
    (radius, reach)
}

/// The best insertion into the tour: the best over all its edges, the
/// earlier edge where two are equally good, and the record for "no
/// candidate" where no edge has one.
pub fn insert_point<
    C: Fn(Point) -> (i32, i32),
    R: Fn(&Vec<Point>) -> (u32, u32),
    K: Fn(u32) -> i32,
    W: Fn(Point, Point) -> u32,
    M: Fn(Point, Point) -> Point,
    S: Fn(Point, Point, [Point; 8]) -> [u32; 8],
    D: Fn(Point, Point) -> u32,
>(hull: &Vec<Point>, spatial_grid: &SpatialGrid<C>, n: usize, k: &Kernels<R, K, W, M, S, D>) -> (r:
    InsertPointResult)
    requires
        spatial_grid.wf(),
        k.ready(),
    ensures
        r == k.selected(spatial_grid, hull@, n as nat, hull@.len()),
{
    let (radius, reach) = search_frame(hull, k);
    let mut best = sentinel();
    let mut j: usize = 0;
    while j < hull.len()
        invariant
            j <= hull.len(),
            spatial_grid.wf(),
            k.ready(),
            radius == k.radius(hull@),
            reach == k.reach(radius.0),
            best == k.selected(spatial_grid, hull@, n as nat, j as nat),
        decreases hull.len() - j,
    {
        let e = edge_pick(hull, j, spatial_grid, n, radius.1, reach, k);
        best = better_of(best, e);
        j += 1;
    }
    best
}

/// A record can be acted on: its anchor is a tour vertex and the grid
/// keeps its point.
pub open spec fn sound<C: Fn(Point) -> (i32, i32)>(
    r: InsertPointResult,
    grid: &SpatialGrid<C>,
    h: Seq<Point>,
) -> bool {
    h.contains(r.best_a) && grid.holds(r.best_c)
}

/// The best of some candidates carries the score -1, or a higher score
/// with the edge's start as anchor and one of the candidates as point.
pub proof fn lemma_scored<
    R: Fn(&Vec<Point>) -> (u32, u32),
    K: Fn(u32) -> i32,
    W: Fn(Point, Point) -> u32,
    M: Fn(Point, Point) -> Point,
    S: Fn(Point, Point, [Point; 8]) -> [u32; 8],
    D: Fn(Point, Point) -> u32,
>(k: &Kernels<R, K, W, M, S, D>, a: Point, b: Point, cands: Seq<Point>, upto: nat)
    requires
        upto <= cands.len(),
    ensures
        k.scored(a, b, cands, upto).best_a == a,
        k.scored(a, b, cands, upto).lda == MINUS_ONE || (greater(
            k.scored(a, b, cands, upto).lda,
            MINUS_ONE,
        ) && cands.contains(k.scored(a, b, cands, upto).best_c)),
    decreases upto,
{
    if upto > 0 {
        lemma_scored(k, a, b, cands, (upto - 1) as nat);
        assert(cands.contains(cands[upto - 1]));
    }
}

/// The best insertion over the edges of a tour carries the score -1, or a
/// higher score, and then it can be acted on.
pub proof fn lemma_selected_sound<
    C: Fn(Point) -> (i32, i32),
    R: Fn(&Vec<Point>) -> (u32, u32),
    K: Fn(u32) -> i32,
    W: Fn(Point, Point) -> u32,
    M: Fn(Point, Point) -> Point,
    S: Fn(Point, Point, [Point; 8]) -> [u32; 8],
    D: Fn(Point, Point) -> u32,
>(k: &Kernels<R, K, W, M, S, D>, grid: &SpatialGrid<C>, h: Seq<Point>, n: nat, upto: nat)
    requires
        upto <= h.len(),
    ensures
        k.selected(grid, h, n, upto).lda == MINUS_ONE || (greater(
            k.selected(grid, h, n, upto).lda,
            MINUS_ONE,
        ) && sound(k.selected(grid, h, n, upto), grid, h)),
    decreases upto,
{
    if upto > 0 {
        lemma_selected_sound(k, grid, h, n, (upto - 1) as nat);
        let j = upto - 1;
        let cands = k.candidates(grid, h, j);
        let kept = cands.filter(|p: Point| grid.holds(p));
        let u = usable(grid, cands, n);
        let e = k.edge_result(grid, h, j, n);
        if u.len() > 0 {
            lemma_scored(k, h[j], h[next_index(h.len() as int, j)], u, u.len());
            if e.lda != MINUS_ONE {
                let w = choose|w: int| 0 <= w < u.len() && u[w] == e.best_c;
                assert(kept[w] == e.best_c);
                cands.lemma_filter_pred(|p: Point| grid.holds(p), w);
                assert(h.contains(h[j]));
            }
        }
    }
}

} // verus!
