use vstd::prelude::*;
use crate::shared::{exceeds, greater, Point};

verus! {

/// Predecessor of position `j` on a closed tour of `n` vertices.
pub open spec fn prev_index(n: int, j: int) -> int {
    if j == 0 {
        n - 1
    } else {
        j - 1
    }
}

/// The four vertices at the two ends of a stretch that might be lifted out:
/// the stretch's first and last vertex and their neighbours outside it.
#[derive(Clone, Copy, Debug, PartialEq, Eq, Structural)]
pub struct Cut {
    pub before: Point,
    pub first: Point,
    pub last: Point,
    pub after: Point,
}

/// A tour edge into which a stretch might be set.
#[derive(Clone, Copy, Debug, PartialEq, Eq, Structural)]
pub struct Slot {
    pub left: Point,
    pub right: Point,
}

/// The cut around the stretch of `len` vertices that starts at `start`.
pub open spec fn cut_at(t: Seq<Point>, start: int, len: int) -> Cut {
    Cut {
        before: t[prev_index(t.len() as int, start)],
        first: t[start],
        last: t[start + len - 1],
        after: t[if start + len == t.len() {
            0
        } else {
            start + len
        }],
    }
}

/// The edge that ends at position `pos`.
pub open spec fn slot_at(t: Seq<Point>, pos: int) -> Slot {
    Slot { left: t[prev_index(t.len() as int, pos)], right: t[pos] }
}

/// Whether the stretch `start .. start + len` may be set down before
/// position `pos`: the edge that ends at `pos` must not touch the stretch.
pub open spec fn slot_open(n: int, start: int, len: int, pos: int) -> bool {
    &&& 0 <= pos < n
    &&& !(start <= pos <= start + len)
    &&& !(pos == 0 && start + len == n)
}

/// `s` after the stretch of `len` vertices at `start` has been lifted out
/// and set down, the same way round, before what was position `pos`.
pub open spec fn moved(s: Seq<Point>, start: int, len: int, pos: int) -> Seq<Point> {
    let seg = s.subrange(start, start + len);
    let rest = s.subrange(0, start) + s.subrange(start + len, s.len() as int);
    let at = if pos > start {
        pos - len
    } else {
        pos
    };
    rest.subrange(0, at) + seg + rest.subrange(at, rest.len() as int)
}

/// Moving a stretch keeps every point of the tour, each as often as
/// before.
pub proof fn lemma_moved_permutes(s: Seq<Point>, start: int, len: int, pos: int)
    requires
        0 <= start,
        0 <= len,
        start + len <= s.len(),
        0 <= pos,
        pos > start ==> len <= pos <= s.len(),
    ensures
        moved(s, start, len, pos).len() == s.len(),
        moved(s, start, len, pos).to_multiset() == s.to_multiset(),
{
    broadcast use vstd::multiset::group_multiset_axioms;

    let seg = s.subrange(start, start + len);
    let head = s.subrange(0, start);
    let tail = s.subrange(start + len, s.len() as int);
    let rest = head + tail;
    let at = if pos > start {
        pos - len
    } else {
        pos
    };
    let front = rest.subrange(0, at);
    let back = rest.subrange(at, rest.len() as int);
    assert(moved(s, start, len, pos) == front + seg + back);
    assert(front + back =~= rest);
    assert(head + seg + tail =~= s);
    vstd::seq_lib::lemma_multiset_commutative(front, seg);
    vstd::seq_lib::lemma_multiset_commutative(front + seg, back);
    vstd::seq_lib::lemma_multiset_commutative(front, back);
    vstd::seq_lib::lemma_multiset_commutative(head, seg);
    vstd::seq_lib::lemma_multiset_commutative(head + seg, tail);
    vstd::seq_lib::lemma_multiset_commutative(head, tail);
    assert(rest.to_multiset() =~= front.to_multiset().add(back.to_multiset()));
    assert(rest.to_multiset() =~= head.to_multiset().add(tail.to_multiset()));
    assert((front + seg + back).to_multiset() =~= rest.to_multiset().add(seg.to_multiset()));
    assert(s.to_multiset() =~= rest.to_multiset().add(seg.to_multiset()));
    assert(moved(s, start, len, pos).to_multiset() =~= s.to_multiset());
}

/// Lifts `length` vertices out of the tour at `from_start` and sets them
/// down, in their order, before the vertex that stood at `to_pos`.
pub fn perform_or_opt_move(tour: &mut Vec<Point>, from_start: usize, length: usize, to_pos: usize)
    requires
        from_start + length <= old(tour).len(),
        to_pos > from_start ==> length <= to_pos <= old(tour).len(),
    ensures
        final(tour)@ == moved(old(tour)@, from_start as int, length as int, to_pos as int),
        final(tour)@.len() == old(tour)@.len(),
        final(tour)@.to_multiset() == old(tour)@.to_multiset(),
{
    let n = tour.len();
    let at = if to_pos > from_start {
        to_pos - length
    } else {
        to_pos
    };
    let ghost s = tour@;
    let ghost seg = s.subrange(from_start as int, from_start + length);
    let ghost rest = s.subrange(0, from_start as int) + s.subrange(from_start + length, n as int);
    let mut out: Vec<Point> = Vec::with_capacity(n);
    let mut k: usize = 0;
    while k < at
        invariant
            k <= at <= n - length,
            from_start + length <= n,
            n == tour.len(),
            tour@ == s,
            rest == s.subrange(0, from_start as int) + s.subrange(from_start + length, n as int),
            out@ == rest.subrange(0, k as int),
        decreases at - k,
    {
        let p = if k < from_start {
            tour[k]
        } else {
            tour[k + length]
        };
        out.push(p);
        proof {
            assert(out@ =~= rest.subrange(0, k + 1));
        }
        k += 1;
    }
    let mut m: usize = 0;
    while m < length
        invariant
            m <= length,
            at <= n - length,
            from_start + length <= n,
            n == tour.len(),
            tour@ == s,
            seg == s.subrange(from_start as int, from_start + length),
            out@ == rest.subrange(0, at as int) + seg.subrange(0, m as int),
        decreases length - m,
    {
        out.push(tour[from_start + m]);
        proof {
            assert(out@ =~= rest.subrange(0, at as int) + seg.subrange(0, m + 1));
        }
        m += 1;
    }
    let mut k: usize = at;
    while k < n - length
        invariant
            at <= k <= n - length,
            from_start + length <= n,
            n == tour.len(),
            tour@ == s,
            rest == s.subrange(0, from_start as int) + s.subrange(from_start + length, n as int),
            out@ == rest.subrange(0, at as int) + seg + rest.subrange(at as int, k as int),
        decreases n - length - k,
    {
        let p = if k < from_start {
            tour[k]
        } else {
            tour[k + length]
        };
        out.push(p);
        proof {
            assert(out@ =~= rest.subrange(0, at as int) + seg + rest.subrange(
                at as int,
                k + 1,
            ));
        }
        k += 1;
    }
    proof {
        assert(seg.subrange(0, length as int) =~= seg);
        lemma_moved_permutes(s, from_start as int, length as int, to_pos as int);
    }
    *tour = out;
}

/// The bit pattern of a millionth: what a move must gain at least to be
/// worth making.
pub const MARGIN: u32 = 0x3586_37BD;

/// The gain is given for every cut and slot, and always the same for the
/// same two.
pub open spec fn single_minded<F: Fn(Cut, Slot) -> u32>(gain: &F) -> bool {
    &&& forall|c: Cut, s: Slot| gain.requires((c, s))
    &&& forall|c: Cut, s: Slot, g: u32, h: u32|
        gain.ensures((c, s), g) && gain.ensures((c, s), h) ==> g == h
}

/// What is gained by lifting the stretch out of `cut` and setting it into
/// `slot`, as the caller gives it: what closing the cut saves, less what
/// opening the slot costs.
pub open spec fn gain_of<F: Fn(Cut, Slot) -> u32>(gain: &F, cut: Cut, slot: Slot) -> u32 {
    choose|g: u32| gain.ensures((cut, slot), g)
}

/// Setting the stretch at `start` down before `pos` is better than what is
/// held so far: it gains more than setting it down before `inc`, or, with
/// nothing held, more than the margin.
pub open spec fn approves<F: Fn(Cut, Slot) -> u32>(
    gain: &F,
    t: Seq<Point>,
    start: int,
    len: int,
    pos: int,
    inc: Option<int>,
) -> bool {
    let here = gain_of(gain, cut_at(t, start, len), slot_at(t, pos));
    match inc {
        Some(q) => greater(here, gain_of(gain, cut_at(t, start, len), slot_at(t, q))),
        None => greater(here, MARGIN),
    }
}

/// The slot chosen among the positions below `upto`: going up through the
/// open slots, each one that is better than the choice so far replaces
/// it.
pub open spec fn pick<F: Fn(Cut, Slot) -> u32>(
    gain: &F,
    t: Seq<Point>,
    start: int,
    len: int,
    upto: nat,
) -> Option<int>
    decreases upto,
{
    if upto == 0 {
        None
    } else {
        let inc = pick(gain, t, start, len, (upto - 1) as nat);
        if slot_open(t.len() as int, start, len, upto - 1) && approves(
            gain,
            t,
            start,
            len,
            upto - 1,
            inc,
        ) {
            Some(upto - 1)
        } else {
            inc
        }
    }
}

/// The first stretch of `len` vertices, among those that start below
/// `upto`, for which a slot is chosen, with that slot.
pub open spec fn first_move<F: Fn(Cut, Slot) -> u32>(
    gain: &F,
    t: Seq<Point>,
    len: int,
    upto: nat,
) -> Option<(int, int)>
    decreases upto,
{
    if upto == 0 {
        None
    } else {
        match first_move(gain, t, len, (upto - 1) as nat) {
            Some(m) => Some(m),
            None => match pick(gain, t, upto - 1, len, t.len()) {
                Some(p) => Some((upto - 1, p)),
                None => None,
            },
        }
    }
}

/// The tour after one sweep over all stretches of `len` vertices: the first
/// move found is made, if there is one.
pub open spec fn swept<F: Fn(Cut, Slot) -> u32>(
    gain: &F,
    t: Seq<Point>,
    len: int,
) -> Seq<Point> {
    match first_move(gain, t, len, (t.len() - len + 1) as nat) {
        Some(m) => moved(t, m.0, len, m.1),
        None => t,
    }
}

/// What relocating stretches of `len` vertices gives: the tour after at
/// most two sweeps, and whether any move was made.
pub open spec fn or_opt_outcome<F: Fn(Cut, Slot) -> u32>(
    gain: &F,
    t: Seq<Point>,
    len: int,
) -> (Seq<Point>, bool) {
    if t.len() < len + 2 || first_move(gain, t, len, (t.len() - len + 1) as nat).is_none() {
        (t, false)
    } else {
        (swept(gain, swept(gain, t, len), len), true)
    }
}

/// What relocating stretches of 1, 2, ... up to `upto` vertices in turn
/// gives.
pub open spec fn multi_outcome<F: Fn(Cut, Slot) -> u32>(
    gain: &F,
    t: Seq<Point>,
    upto: nat,
) -> (Seq<Point>, bool)
    decreases upto,
{
    if upto == 0 {
        (t, false)
    } else {
        let earlier = multi_outcome(gain, t, (upto - 1) as nat);
        let here = or_opt_outcome(gain, earlier.0, upto as int);
        (here.0, earlier.1 || here.1)
    }
}

/// A chosen slot is open, and it was better than the choice that stood
/// before it: no move is made that does not gain more than the margin.
pub proof fn lemma_pick_is_approved<F: Fn(Cut, Slot) -> u32>(
    gain: &F,
    t: Seq<Point>,
    start: int,
    len: int,
    upto: nat,
)
    ensures
        match pick(gain, t, start, len, upto) {
            Some(p) => {
                &&& 0 <= p < upto
                &&& slot_open(t.len() as int, start, len, p)
                &&& approves(gain, t, start, len, p, pick(gain, t, start, len, p as nat))
            },
            None => true,
        },
    decreases upto,
{
    if upto > 0 {
        lemma_pick_is_approved(gain, t, start, len, (upto - 1) as nat);
    }
}

/// The move to a chosen slot gains more than the margin: where the gain
/// is the length that the tour loses, every move that is made shortens the
/// tour by more than a millionth.
pub proof fn lemma_pick_gains<F: Fn(Cut, Slot) -> u32>(
    gain: &F,
    t: Seq<Point>,
    start: int,
    len: int,
    upto: nat,
)
    ensures
        match pick(gain, t, start, len, upto) {
            Some(p) => greater(gain_of(gain, cut_at(t, start, len), slot_at(t, p)), MARGIN),
            None => true,
        },
    decreases upto,
{
    if upto > 0 {
        lemma_pick_gains(gain, t, start, len, (upto - 1) as nat);
    }
}

/// Where nothing is better than what is held on a tour, no slot is
/// chosen.
pub proof fn lemma_no_approval_no_choice<F: Fn(Cut, Slot) -> u32>(
    gain: &F,
    t: Seq<Point>,
    start: int,
    len: int,
    upto: nat,
)
    requires
        forall|s: int, l: int, p: int, i: Option<int>| !approves(gain, t, s, l, p, i),
    ensures
        pick(gain, t, start, len, upto).is_none(),
    decreases upto,
{
    if upto > 0 {
        lemma_no_approval_no_choice(gain, t, start, len, (upto - 1) as nat);
    }
}

/// Where nothing is better than what is held on a tour, no stretch is
/// found to move.
pub proof fn lemma_no_approval_no_first_move<F: Fn(Cut, Slot) -> u32>(
    gain: &F,
    t: Seq<Point>,
    len: int,
    upto: nat,
)
    requires
        forall|s: int, l: int, p: int, i: Option<int>| !approves(gain, t, s, l, p, i),
    ensures
        first_move(gain, t, len, upto).is_none(),
    decreases upto,
{
    if upto > 0 {
        lemma_no_approval_no_first_move(gain, t, len, (upto - 1) as nat);
        lemma_no_approval_no_choice(gain, t, upto - 1, len, t.len());
    }
}

/// A move found among the first stretches stays the move found when more
/// stretches are looked at.
pub proof fn lemma_first_move_stays<F: Fn(Cut, Slot) -> u32>(
    gain: &F,
    t: Seq<Point>,
    len: int,
    upto: nat,
    later: nat,
)
    requires
        upto <= later,
        first_move(gain, t, len, upto).is_some(),
    ensures
        first_move(gain, t, len, later) == first_move(gain, t, len, upto),
    decreases later,
{
    if later > upto {
        lemma_first_move_stays(gain, t, len, upto, (later - 1) as nat);
    }
}

/// Where nothing is better than what is held on a tour, as on a tour that
/// no move can shorten by more than the margin, the whole run over all
/// stretch lengths makes no move and leaves the tour as it is.
pub proof fn lemma_no_approval_no_move<F: Fn(Cut, Slot) -> u32>(
    gain: &F,
    t: Seq<Point>,
    upto: nat,
)
    requires
        forall|s: int, l: int, p: int, i: Option<int>| !approves(gain, t, s, l, p, i),
    ensures
        multi_outcome(gain, t, upto) == (t, false),
    decreases upto,
{
    if upto > 0 {
        lemma_no_approval_no_move(gain, t, (upto - 1) as nat);
        lemma_no_approval_no_first_move(gain, t, upto as int, (t.len() - upto + 1) as nat);
    }
}

/// Chooses the slot for the stretch of `len` vertices at `start`, or none.
///
/// `gain(cut, slot)` is asked what lifting the stretch out of `cut` and
/// setting it into `slot` gains. Going up through the open slots, the
/// first that gains more than the margin is held, and after it each that
/// gains more than the one held.
pub fn best_slot<F: Fn(Cut, Slot) -> u32>(
    tour: &Vec<Point>,
    start: usize,
    len: usize,
    gain: &F,
) -> (r: Option<usize>)
    requires
        1 <= len,
        start + len <= tour.len(),
        single_minded(gain),
    ensures
        match r {
            Some(p) => pick(gain, tour@, start as int, len as int, tour@.len()) == Some(p as int)
                && slot_open(tour@.len() as int, start as int, len as int, p as int),
            None => pick(gain, tour@, start as int, len as int, tour@.len()).is_none(),
        },
{
    let n = tour.len();
    let cut = Cut {
        before: tour[if start == 0 {
            n - 1
        } else {
            start - 1
        }],
        first: tour[start],
        last: tour[start + len - 1],
        after: tour[if start + len == n {
            0
        } else {
            start + len
        }],
    };
    let mut best: Option<usize> = None;
    let mut held: u32 = MARGIN;
    let mut pos: usize = 0;
    while pos < n
        invariant
            pos <= n,
            n == tour.len(),
            1 <= len,
            start + len <= n,
            cut == cut_at(tour@, start as int, len as int),
            single_minded(gain),
            match best {
                Some(p) => pick(gain, tour@, start as int, len as int, pos as nat) == Some(
                    p as int,
                ) && slot_open(n as int, start as int, len as int, p as int) && held == gain_of(
                    gain,
                    cut,
                    slot_at(tour@, p as int),
                ),
                None => pick(gain, tour@, start as int, len as int, pos as nat).is_none() && held
                    == MARGIN,
            },
        decreases n - pos,
    {
        let open = !(start <= pos && pos <= start + len) && !(pos == 0 && start + len == n);
        if open {
            let slot = Slot { left: tour[if pos == 0 {
                n - 1
            } else {
                pos - 1
            }], right: tour[pos] };
            let here = gain(cut, slot);
            if exceeds(here, held) {
                best = Some(pos);
                held = here;
            }
        }
        pos += 1;
    }
    best
}

/// Relocates stretches of `sequence_length` vertices.
///
/// In each of at most two sweeps the stretches are taken by rising start
/// position; the first one for which [`best_slot`] chooses a slot is moved
/// there and the sweep ends. A sweep that moves nothing ends the run.
/// Returns whether a move was made. A tour of fewer than
/// `sequence_length + 2` vertices is left alone.
pub fn or_opt_optimization<F: Fn(Cut, Slot) -> u32>(
    hull: &mut Vec<Point>,
    sequence_length: usize,
    gain: &F,
) -> (r: bool)
    requires
        1 <= sequence_length,
        single_minded(gain),
    ensures
        (final(hull)@, r) == or_opt_outcome(gain, old(hull)@, sequence_length as int),
        final(hull)@.len() == old(hull)@.len(),
        final(hull)@.to_multiset() == old(hull)@.to_multiset(),
{
    let n = hull.len();
    if n < 2 || n - 2 < sequence_length {
        return false;
    }
    let first = or_opt_sweep(hull, sequence_length, gain);
    if !first {
        return false;
    }
    let _second = or_opt_sweep(hull, sequence_length, gain);
    true
}

/// One sweep over the stretches of `len` vertices: makes the first move
/// found and returns whether there was one.
pub fn or_opt_sweep<F: Fn(Cut, Slot) -> u32>(
    hull: &mut Vec<Point>,
    len: usize,
    gain: &F,
) -> (r: bool)
    requires
        1 <= len,
        len + 2 <= old(hull).len(),
        single_minded(gain),
    ensures
        final(hull)@ == swept(gain, old(hull)@, len as int),
        r == first_move(
            gain,
            old(hull)@,
            len as int,
            (old(hull)@.len() - len + 1) as nat,
        ).is_some(),
        final(hull)@.len() == old(hull)@.len(),
        final(hull)@.to_multiset() == old(hull)@.to_multiset(),
{
    let n = hull.len();
    let mut start: usize = 0;
    while start <= n - len
        invariant
            n == hull.len(),
            1 <= len,
            len + 2 <= n,
            start <= n - len + 1,
            hull@ == old(hull)@,
            single_minded(gain),
            first_move(gain, hull@, len as int, start as nat).is_none(),
        decreases n + 1 - len - start,
    {
        match best_slot(hull, start, len, gain) {
            Some(pos) => {
                proof {
                    lemma_first_move_stays(
                        gain,
                        hull@,
                        len as int,
                        (start + 1) as nat,
                        (n - len + 1) as nat,
                    );
                }
                perform_or_opt_move(hull, start, len, pos);
                return true;
            },
            None => {},
        }
        start += 1;
    }
    false
}

/// Relocates stretches of 1, 2, ... 49 vertices, each length by
/// [`or_opt_optimization`] on what the lengths before it left. Returns
/// whether any move was made.
pub fn multi_or_opt_optimization<F: Fn(Cut, Slot) -> u32>(
    hull: &mut Vec<Point>,
    gain: &F,
) -> (r: bool)
    requires
        single_minded(gain),
    ensures
        (final(hull)@, r) == multi_outcome(gain, old(hull)@, 49),
        final(hull)@.len() == old(hull)@.len(),
        final(hull)@.to_multiset() == old(hull)@.to_multiset(),
{
    let mut any: bool = false;
    let mut len: usize = 1;
    while len < 50
        invariant
            1 <= len <= 50,
            single_minded(gain),
            (hull@, any) == multi_outcome(gain, old(hull)@, (len - 1) as nat),
            hull@.len() == old(hull)@.len(),
            hull@.to_multiset() == old(hull)@.to_multiset(),
        decreases 50 - len,
    {
        if or_opt_optimization(hull, len, gain) {
            any = true;
        }
        len += 1;
    }
    any
}

} // verus!
