use vstd::prelude::*;
use crate::shared::{exceeds, greater, key_of, order_key, Point};

verus! {

/// One insertion: the score that won, the tour vertex after which the point
/// was set, and the point. The score is the bit pattern of a
/// single-precision number and is ordered by [`order_key`].
#[derive(Clone, Copy, Debug, PartialEq, Eq, Structural)]
pub struct InsertPointResult {
    pub lda: u32,
    pub best_a: Point,
    pub best_c: Point,
}

/// Where a record of key `key` goes in the sorted list `s`, looking from
/// position `from` on: behind every record whose key is not greater.
pub open spec fn slot_for(s: Seq<InsertPointResult>, key: int, from: int) -> int
    decreases s.len() - from,
{
    if from < 0 || from >= s.len() || order_key(s[from].lda) > key {
        from
    } else {
        slot_for(s, key, from + 1)
    }
}

/// The `k` lowest-scoring records of `log`, lowest first. Of two records
/// with the same key the earlier one is preferred and comes first.
pub open spec fn lowest(log: Seq<InsertPointResult>, k: nat) -> Seq<InsertPointResult>
    decreases log.len(),
{
    if log.len() == 0 {
        Seq::empty()
    } else {
        let kept = lowest(log.drop_last(), k);
        let e = log.last();
        let grown = kept.insert(slot_for(kept, order_key(e.lda), 0), e);
        if grown.len() > k {
            grown.drop_last()
        } else {
            grown
        }
    }
}

/// The records of `s` stand in rising order of their keys.
pub open spec fn rising(s: Seq<InsertPointResult>) -> bool {
    forall|i: int, j: int| 0 <= i <= j < s.len() ==> order_key(s[i].lda) <= order_key(s[j].lda)
}

/// The slot found lies in range, everything before it has a key that is
/// not greater, and in a rising list everything from it on has a greater
/// key.
pub proof fn lemma_slot_for(s: Seq<InsertPointResult>, key: int, from: int)
    requires
        0 <= from <= s.len(),
    ensures
        from <= slot_for(s, key, from) <= s.len(),
        forall|i: int| from <= i < slot_for(s, key, from) ==> order_key(s[i].lda) <= key,
        rising(s) ==> forall|i: int|
            slot_for(s, key, from) <= i < s.len() ==> order_key(s[i].lda) > key,
    decreases s.len() - from,
{
    if from < s.len() && order_key(s[from].lda) <= key {
        lemma_slot_for(s, key, from + 1);
    }
}

/// What is kept of a log is in rising order, holds `k` records or the whole
/// log if that is shorter, and holds only records of the log.
pub proof fn lemma_lowest(log: Seq<InsertPointResult>, k: nat)
    ensures
        rising(lowest(log, k)),
        lowest(log, k).len() == if log.len() < k {
            log.len()
        } else {
            k
        },
        forall|i: int| 0 <= i < lowest(log, k).len() ==> log.contains(#[trigger] lowest(log, k)[i]),
    decreases log.len(),
{
    if log.len() > 0 {
        let kept = lowest(log.drop_last(), k);
        let e = log.last();
        let at = slot_for(kept, order_key(e.lda), 0);
        let grown = kept.insert(at, e);
        lemma_lowest(log.drop_last(), k);
        lemma_slot_for(kept, order_key(e.lda), 0);
        assert(rising(grown));
        assert forall|i: int| 0 <= i < grown.len() implies log.contains(#[trigger] grown[i]) by {
            if i == at {
                assert(log[log.len() - 1] == e);
            } else {
                let j = if i < at {
                    i
                } else {
                    i - 1
                };
                assert(grown[i] == kept[j]);
                let w = choose|w: int| 0 <= w < log.drop_last().len() && log.drop_last()[w] == kept[j];
                assert(log[w] == kept[j]);
            }
        }
    }
}

/// No record left out of the kept ones has a key below that of a kept one.
pub proof fn lemma_lowest_bound(log: Seq<InsertPointResult>, k: nat, j: int)
    requires
        0 <= j < log.len(),
    ensures
        lowest(log, k).contains(log[j]) || forall|i: int|
            0 <= i < lowest(log, k).len() ==> order_key(#[trigger] lowest(log, k)[i].lda)
                <= order_key(log[j].lda),
    decreases log.len(),
{
    let kept = lowest(log.drop_last(), k);
    let e = log.last();
    let at = slot_for(kept, order_key(e.lda), 0);
    let grown = kept.insert(at, e);
    let out = lowest(log, k);
    lemma_lowest(log.drop_last(), k);
    lemma_slot_for(kept, order_key(e.lda), 0);
    assert(rising(grown));
    if j == log.len() - 1 {
        if at < out.len() {
            assert(out[at] == e);
        }
    } else {
        lemma_lowest_bound(log.drop_last(), k, j);
        assert(log.drop_last()[j] == log[j]);
        if kept.contains(log[j]) {
            let w = choose|w: int| 0 <= w < kept.len() && kept[w] == log[j];
            let w2 = if w < at {
                w
            } else {
                w + 1
            };
            assert(grown[w2] == log[j]);
            if w2 < out.len() {
                assert(out[w2] == log[j]);
            } else {
                assert forall|i: int| 0 <= i < out.len() implies order_key(
                    #[trigger] out[i].lda,
                ) <= order_key(log[j].lda) by {
                    assert(out[i] == grown[i]);
                }
            }
        } else {
            assert forall|i: int| 0 <= i < out.len() implies order_key(#[trigger] out[i].lda)
                <= order_key(log[j].lda) by {
                assert(out[i] == grown[i]);
                if i < at {
                    assert(grown[i] == kept[i]);
                } else if i == at {
                    if at < kept.len() {
                        assert(grown[at + 1] == kept[at]);
                    } else {
                        // the new record went to the end and stayed: nothing was full
                        assert(kept.len() < k);
                        assert(kept.len() == log.drop_last().len());
                        lemma_lowest_holds_all(log.drop_last(), k, j);
                    }
                } else {
                    assert(grown[i] == kept[i - 1]);
                }
            }
        }
    }
}

/// While fewer than `k` records have come, all of them are kept.
pub proof fn lemma_lowest_holds_all(log: Seq<InsertPointResult>, k: nat, j: int)
    requires
        log.len() <= k,
        0 <= j < log.len(),
    ensures
        lowest(log, k).contains(log[j]),
    decreases log.len(),
{
    let kept = lowest(log.drop_last(), k);
    let e = log.last();
    let at = slot_for(kept, order_key(e.lda), 0);
    let grown = kept.insert(at, e);
    lemma_lowest(log.drop_last(), k);
    lemma_slot_for(kept, order_key(e.lda), 0);
    if j == log.len() - 1 {
        assert(grown[at] == e);
    } else {
        lemma_lowest_holds_all(log.drop_last(), k, j);
        assert(log.drop_last()[j] == log[j]);
        let w = choose|w: int| 0 <= w < kept.len() && kept[w] == log[j];
        let w2 = if w < at {
            w
        } else {
            w + 1
        };
        assert(grown[w2] == log[j]);
    }
}

/// The points inserted by the `k` lowest-scoring records of the log,
/// lowest score first.
pub fn find_lowest_lda_points(insert_log: &Vec<InsertPointResult>, k: usize) -> (r: Vec<Point>)
    ensures
        r@ == lowest(insert_log@, k as nat).map_values(|e: InsertPointResult| e.best_c),
{
    let mut kept: Vec<InsertPointResult> = Vec::new();
    let mut i: usize = 0;
    proof {
        assert(insert_log@.take(0) =~= Seq::<InsertPointResult>::empty());
    }
    while i < insert_log.len()
        invariant
            i <= insert_log.len(),
            kept@ == lowest(insert_log@.take(i as int), k as nat),
        decreases insert_log.len() - i,
    {
        let e = insert_log[i];
        let key = key_of(e.lda);
        proof {
            let upto = insert_log@.take(i as int + 1);
            assert(upto.drop_last() =~= insert_log@.take(i as int));
            assert(upto.last() == e);
            lemma_lowest(insert_log@.take(i as int), k as nat);
        }
        let mut at: usize = 0;
        while at < kept.len() && key_of(kept[at].lda) <= key
            invariant
                at <= kept.len(),
                slot_for(kept@, key as int, 0) == slot_for(kept@, key as int, at as int),
            decreases kept.len() - at,
        {
            at += 1;
        }
        kept.insert(at, e);
        if kept.len() > k {
            kept.pop();
        }
        i += 1;
    }
    proof {
        assert(insert_log@.take(insert_log.len() as int) =~= insert_log@);
    }
    let mut out: Vec<Point> = Vec::with_capacity(kept.len());
    let mut j: usize = 0;
    while j < kept.len()
        invariant
            j <= kept.len(),
            out@ == kept@.take(j as int).map_values(|e: InsertPointResult| e.best_c),
        decreases kept.len() - j,
    {
        out.push(kept[j].best_c);
        proof {
            assert(out@ =~= kept@.take(j as int + 1).map_values(|e: InsertPointResult| e.best_c));
        }
        j += 1;
    }
    proof {
        assert(kept@.take(kept.len() as int) =~= kept@);
    }
    out
}

/// The points that get a second chance: those inserted at the lowest
/// scores, one for every eight vertices of the tour, lowest score first.
pub fn reluctant_points(insert_log: &Vec<InsertPointResult>, tour_len: usize) -> (r: Vec<Point>)
    ensures
        r@ == lowest(insert_log@, (tour_len / 8) as nat).map_values(
            |e: InsertPointResult| e.best_c,
        ),
{
    find_lowest_lda_points(insert_log, tour_len / 8)
}

/// The bit pattern of a hundred-thousandth: two points whose coordinates
/// differ by less count as one.
pub const EPS: u32 = 0x3727_C5AC;

/// The offsets are given for every two points, and always the same for the
/// same two.
pub open spec fn single_minded<F: Fn(Point, Point) -> (u32, u32)>(offset: &F) -> bool {
    &&& forall|p: Point, q: Point| offset.requires((p, q))
    &&& forall|p: Point, q: Point, s: (u32, u32), t: (u32, u32)|
        offset.ensures((p, q), s) && offset.ensures((p, q), t) ==> s == t
}

/// How far `p` and `q` lie apart in the first and in the second
/// coordinate, as the caller gives it.
pub open spec fn offset_of<F: Fn(Point, Point) -> (u32, u32)>(offset: &F, p: Point, q: Point) -> (
    u32,
    u32,
) {
    choose|d: (u32, u32)| offset.ensures((p, q), d)
}

/// `p` and `q` count as one point: they lie less than the tolerance apart
/// in either coordinate.
pub open spec fn close<F: Fn(Point, Point) -> (u32, u32)>(offset: &F, p: Point, q: Point) -> bool {
    greater(EPS, offset_of(offset, p, q).0) && greater(EPS, offset_of(offset, p, q).1)
}

/// `p` counts as one of the points of `marks`.
pub open spec fn struck<F: Fn(Point, Point) -> (u32, u32)>(
    offset: &F,
    marks: Seq<Point>,
    p: Point,
) -> bool {
    exists|i: int| 0 <= i < marks.len() && close(offset, p, #[trigger] marks[i])
}

/// Computes [`struck`].
pub fn is_struck<F: Fn(Point, Point) -> (u32, u32)>(offset: &F, marks: &Vec<Point>, p: Point) -> (r:
    bool)
    requires
        single_minded(offset),
    ensures
        r == struck(offset, marks@, p),
{
    let mut i: usize = 0;
    while i < marks.len()
        invariant
            i <= marks.len(),
            single_minded(offset),
            forall|j: int| 0 <= j < i ==> !close(offset, p, #[trigger] marks@[j]),
        decreases marks.len() - i,
    {
        let d = offset(p, marks[i]);
        if exceeds(EPS, d.0) && exceeds(EPS, d.1) {
            return true;
        }
        i += 1;
    }
    false
}

/// Takes out of the tour every vertex that counts as one of the points of
/// `to_remove`; the others keep their order.
///
/// `offset(p, q)` is asked how far `p` and `q` lie apart in the first and
/// in the second coordinate.
pub fn remove_points_from_hull<F: Fn(Point, Point) -> (u32, u32)>(
    hull: &mut Vec<Point>,
    to_remove: &Vec<Point>,
    offset: &F,
)
    requires
        single_minded(offset),
    ensures
        final(hull)@ == old(hull)@.filter(|p: Point| !struck(offset, to_remove@, p)),
{
    let ghost keep = |p: Point| !struck(offset, to_remove@, p);
    let mut out: Vec<Point> = Vec::new();
    let mut i: usize = 0;
    proof {
        assert(hull@.take(0) =~= Seq::<Point>::empty());
    }
    while i < hull.len()
        invariant
            i <= hull.len(),
            hull@ == old(hull)@,
            single_minded(offset),
            keep == |p: Point| !struck(offset, to_remove@, p),
            out@ == hull@.take(i as int).filter(keep),
        decreases hull.len() - i,
    {
        let p = hull[i];
        proof {
            assert(hull@.take(i as int + 1) =~= hull@.take(i as int).push(p));
            hull@.take(i as int).lemma_filter_push(p, keep);
        }
        if !is_struck(offset, to_remove, p) {
            out.push(p);
        }
        i += 1;
    }
    proof {
        assert(hull@.take(hull.len() as int) =~= hull@);
    }
    *hull = out;
}

} // verus!
