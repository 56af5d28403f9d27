use vstd::prelude::*;

verus! {

/// The two coordinate fields of one line of a node section, as written.
#[derive(Debug, PartialEq, Eq)]
pub struct NodeLine {
    pub x: Vec<u8>,
    pub y: Vec<u8>,
}

impl NodeLine {
    /// The two fields as byte sequences.
    pub open spec fn fields(self) -> (Seq<u8>, Seq<u8>) {
        (self.x@, self.y@)
    }
}

/// The bytes of `NODE_COORD_SECTION`.
pub open spec fn section_marker() -> Seq<u8> {
    seq![78u8, 79, 68, 69, 95, 67, 79, 79, 82, 68, 95, 83, 69, 67, 84, 73, 79, 78]
}

/// The bytes of `EOF`.
pub open spec fn end_marker() -> Seq<u8> {
    seq![69u8, 79, 70]
}

/// Blank, tab, line feed, vertical tab, form feed or carriage return.
pub open spec fn is_space(b: u8) -> bool {
    b == 32 || (9 <= b && b <= 13)
}

/// Whether `pat` stands in `s` at position `at`.
pub open spec fn stands_at(s: Seq<u8>, pat: Seq<u8>, at: int) -> bool {
    0 <= at && at + pat.len() <= s.len() && s.subrange(at, at + pat.len()) == pat
}

/// The first position from `from` on at which `pat` stands in `s`; the
/// length of `s` if there is none.
pub open spec fn first_match(s: Seq<u8>, pat: Seq<u8>, from: int) -> int
    decreases s.len() - from,
{
    if from < 0 || from >= s.len() || from + pat.len() > s.len() {
        s.len() as int
    } else if stands_at(s, pat, from) {
        from
    } else {
        first_match(s, pat, from + 1)
    }
}

/// The node section of a file: what stands between the first section
/// marker and the next section marker or end marker, whichever comes
/// first, or the end of the file. Empty if there is no section marker.
pub open spec fn section(s: Seq<u8>) -> Seq<u8> {
    let m = first_match(s, section_marker(), 0);
    if m >= s.len() {
        Seq::empty()
    } else {
        let from = m + section_marker().len();
        let next = first_match(s, section_marker(), from);
        let end = first_match(s, end_marker(), from);
        s.subrange(
            from,
            if end < next {
                end
            } else {
                next
            },
        )
    }
}

/// The end of the run of bytes other than white space that starts at
/// `from`, no further than `to`.
pub open spec fn token_end(s: Seq<u8>, from: int, to: int) -> int
    decreases to - from,
{
    if from < 0 || from >= to || to > s.len() || is_space(s[from]) {
        from
    } else {
        token_end(s, from + 1, to)
    }
}

/// The fields of `s` between `from` and `to`: the longest runs of bytes
/// other than white space.
pub open spec fn tokens(s: Seq<u8>, from: int, to: int) -> Seq<Seq<u8>>
    decreases to - from,
{
    if from < 0 || from >= to || to > s.len() {
        Seq::empty()
    } else if is_space(s[from]) {
        tokens(s, from + 1, to)
    } else {
        let e = token_end(s, from, to);
        if from < e <= to {
            seq![s.subrange(from, e)] + tokens(s, e, to)
        } else {
            Seq::empty()
        }
    }
}

/// The position of the first line feed from `from` on; the length of `s`
/// if there is none.
pub open spec fn line_end(s: Seq<u8>, from: int) -> int
    decreases s.len() - from,
{
    if from < 0 || from >= s.len() || s[from] == 10 {
        from
    } else {
        line_end(s, from + 1)
    }
}

/// What the lines of `s` from position `from` on give: of each line with
/// three fields or more, the second and the third.
pub open spec fn entries(s: Seq<u8>, from: int) -> Seq<(Seq<u8>, Seq<u8>)>
    decreases s.len() - from,
{
    if from < 0 || from >= s.len() {
        Seq::empty()
    } else {
        let e = line_end(s, from);
        let t = tokens(s, from, e);
        let here = if t.len() >= 3 {
            seq![(t[1], t[2])]
        } else {
            Seq::empty()
        };
        if from <= e < s.len() {
            here + entries(s, e + 1)
        } else {
            here
        }
    }
}

/// The coordinate fields of a file's node section, line by line.
pub open spec fn node_lines(s: Seq<u8>) -> Seq<(Seq<u8>, Seq<u8>)> {
    entries(section(s), 0)
}

/// The end of a field lies between its start and the limit, and behind
/// its start where the field is not empty.
pub proof fn lemma_token_end_bounds(s: Seq<u8>, from: int, to: int)
    requires
        0 <= from <= to <= s.len(),
    ensures
        from <= token_end(s, from, to) <= to,
        from < to && !is_space(s[from]) ==> from < token_end(s, from, to),
    decreases to - from,
{
    if from < to && !is_space(s[from]) {
        lemma_token_end_bounds(s, from + 1, to);
    }
}

/// Whether `pat` stands in `s` at `at`.
fn match_at(s: &[u8], pat: &[u8], at: usize) -> (r: bool)
    requires
        at + pat@.len() <= s@.len(),
    ensures
        r == stands_at(s@, pat@, at as int),
{
    let n = s.len();
    let mut k: usize = 0;
    while k < pat.len()
        invariant
            k <= pat@.len(),
            n == s@.len(),
            at + pat@.len() <= s@.len(),
            forall|j: int| 0 <= j < k ==> s@[at + j] == pat@[j],
        decreases pat@.len() - k,
    {
        if s[at + k] != pat[k] {
            proof {
                assert(s@.subrange(at as int, at + pat@.len())[k as int] == s@[at + k]);
            }
            return false;
        }
        k += 1;
    }
    proof {
        assert(s@.subrange(at as int, at + pat@.len()) =~= pat@);
    }
    true
}

/// Computes [`first_match`].
pub fn find_from(s: &[u8], pat: &[u8], from: usize) -> (r: usize)
    ensures
        r == first_match(s@, pat@, from as int),
{
    if pat.len() > s.len() || from >= s.len() {
        return s.len();
    }
    if pat.len() == 0 {
        proof {
            assert(s@.subrange(from as int, from as int) =~= pat@);
        }
        return from;
    }
    let last = s.len() - pat.len();
    let mut i: usize = from;
    while i <= last
        invariant
            last + pat@.len() == s@.len(),
            pat@.len() > 0,
            last < usize::MAX,
            from <= i,
            first_match(s@, pat@, from as int) == first_match(s@, pat@, i as int),
        decreases last + 1 - i,
    {
        if match_at(s, pat, i) {
            return i;
        }
        i += 1;
    }
    s.len()
}

/// The bytes of `s` from `from` up to `to`.
fn copy_range(s: &[u8], from: usize, to: usize) -> (r: Vec<u8>)
    requires
        from <= to <= s@.len(),
    ensures
        r@ == s@.subrange(from as int, to as int),
{
    let mut out: Vec<u8> = Vec::with_capacity(to - from);
    let mut i: usize = from;
    while i < to
        invariant
            from <= i <= to <= s@.len(),
            out@ == s@.subrange(from as int, i as int),
        decreases to - i,
    {
        out.push(s[i]);
        proof {
            assert(out@ =~= s@.subrange(from as int, i + 1));
        }
        i += 1;
    }
    out
}

/// Computes [`is_space`].
fn space(b: u8) -> (r: bool)
    ensures
        r == is_space(b),
{
    b == 32 || (9 <= b && b <= 13)
}

/// The fields of `s` between `from` and `to`, each as where it starts and
/// where it ends.
fn split_fields(s: &[u8], from: usize, to: usize) -> (r: Vec<(usize, usize)>)
    requires
        from <= to <= s@.len(),
    ensures
        r@.len() == tokens(s@, from as int, to as int).len(),
        forall|k: int| 0 <= k < r@.len() ==> (#[trigger] r@[k]).0 <= r@[k].1 <= to,
        forall|k: int|
            0 <= k < r@.len() ==> s@.subrange(r@[k].0 as int, r@[k].1 as int) == #[trigger] tokens(
                s@,
                from as int,
                to as int,
            )[k],
{
    let mut out: Vec<(usize, usize)> = Vec::new();
    let ghost mut done: Seq<Seq<u8>> = Seq::empty();
    let mut i: usize = from;
    while i < to
        invariant
            from <= i <= to <= s@.len(),
            tokens(s@, from as int, to as int) == done + tokens(s@, i as int, to as int),
            out@.len() == done.len(),
            forall|k: int| 0 <= k < out@.len() ==> (#[trigger] out@[k]).0 <= out@[k].1 <= to,
            forall|k: int|
                0 <= k < out@.len() ==> s@.subrange(out@[k].0 as int, out@[k].1 as int)
                    == #[trigger] done[k],
        decreases to - i,
    {
        if space(s[i]) {
            i += 1;
        } else {
            let mut e: usize = i;
            while e < to && !space(s[e])
                invariant
                    i <= e <= to <= s@.len(),
                    token_end(s@, i as int, to as int) == token_end(s@, e as int, to as int),
                decreases to - e,
            {
                e += 1;
            }
            proof {
                lemma_token_end_bounds(s@, i as int, to as int);
                assert(done + (seq![s@.subrange(i as int, e as int)] + tokens(
                    s@,
                    e as int,
                    to as int,
                )) =~= done.push(s@.subrange(i as int, e as int)) + tokens(
                    s@,
                    e as int,
                    to as int,
                ));
                done = done.push(s@.subrange(i as int, e as int));
            }
            out.push((i, e));
            i = e;
        }
    }
    proof {
        assert(done + Seq::<Seq<u8>>::empty() =~= done);
    }
    out
}

/// The coordinate fields of the lines of a node section.
pub fn section_lines(w: &[u8]) -> (r: Vec<NodeLine>)
    ensures
        r@.map_values(|l: NodeLine| l.fields()) == entries(w@, 0),
{
    let mut out: Vec<NodeLine> = Vec::new();
    let mut i: usize = 0;
    proof {
        assert(out@.map_values(|l: NodeLine| l.fields()) + entries(w@, 0) =~= entries(w@, 0));
    }
    while i < w.len()
        invariant
            i <= w@.len(),
            entries(w@, 0) == out@.map_values(|l: NodeLine| l.fields()) + entries(w@, i as int),
        decreases w@.len() - i,
    {
        let mut e: usize = i;
        while e < w.len() && w[e] != 10
            invariant
                i <= e <= w@.len(),
                line_end(w@, i as int) == line_end(w@, e as int),
            decreases w@.len() - e,
        {
            e += 1;
        }
        let fields = split_fields(w, i, e);
        let ghost before = out@.map_values(|l: NodeLine| l.fields());
        let ghost rest = if e + 1 <= w@.len() {
            entries(w@, e + 1)
        } else {
            Seq::empty()
        };
        proof {
            assert(entries(w@, e + 1) == rest);
        }
        if fields.len() >= 3 {
            let x = copy_range(w, fields[1].0, fields[1].1);
            let y = copy_range(w, fields[2].0, fields[2].1);
            let ghost t = tokens(w@, i as int, e as int);
            proof {
                assert(x@ == t[1]);
                assert(y@ == t[2]);
            }
            let line = NodeLine { x, y };
            out.push(line);
            proof {
                assert(out@.map_values(|l: NodeLine| l.fields()) =~= before.push((t[1], t[2])));
                assert(before + (seq![(t[1], t[2])] + rest) =~= before.push((t[1], t[2])) + rest);
            }
        } else {
            proof {
                assert(before + (Seq::<(Seq<u8>, Seq<u8>)>::empty() + rest) =~= before + rest);
            }
        }
        if e == w.len() {
            proof {
                assert(out@.map_values(|l: NodeLine| l.fields()) + rest =~= out@.map_values(
                    |l: NodeLine| l.fields(),
                ));
            }
            return out;
        }
        i = e + 1;
    }
    proof {
        assert(out@.map_values(|l: NodeLine| l.fields()) + entries(w@, i as int) =~= out@.map_values(
            |l: NodeLine| l.fields(),
        ));
    }
    out
}

/// Reads the node section of a file.
///
/// The section starts behind the first `NODE_COORD_SECTION` and ends at the
/// next `NODE_COORD_SECTION` or `EOF`, or with the file. Of each of its
/// lines that has three fields or more, set apart by white space, the
/// second and the third field are given back as they are written. A file
/// without the marker gives nothing.
pub fn parse_file(file: &[u8]) -> (r: Vec<NodeLine>)
    ensures
        r@.map_values(|l: NodeLine| l.fields()) == node_lines(file@),
{
    let marker: [u8; 18] = [78, 79, 68, 69, 95, 67, 79, 79, 82, 68, 95, 83, 69, 67, 84, 73, 79, 78];
    let end: [u8; 3] = [69, 79, 70];
    proof {
        assert(marker@ =~= section_marker());
        assert(end@ =~= end_marker());
    }
    let m = find_from(file, marker.as_slice(), 0);
    if m >= file.len() {
        proof {
            assert(entries(Seq::<u8>::empty(), 0) =~= Seq::empty());
        }
        return Vec::new();
    }
    proof {
        lemma_first_match_bounds(file@, section_marker(), 0);
    }
    let from = m + 18;
    let next = find_from(file, marker.as_slice(), from);
    let stop = find_from(file, end.as_slice(), from);
    proof {
        lemma_first_match_bounds(file@, section_marker(), from as int);
        lemma_first_match_bounds(file@, end_marker(), from as int);
    }
    let to = if stop < next {
        stop
    } else {
        next
    };
    let window = copy_range(file, from, to);
    section_lines(window.as_slice())
}

/// A match found lies at or behind `from` and wholly inside `s`.
pub proof fn lemma_first_match_bounds(s: Seq<u8>, pat: Seq<u8>, from: int)
    requires
        0 <= from,
    ensures
        first_match(s, pat, from) == s.len() || (from <= first_match(s, pat, from)
            && first_match(s, pat, from) + pat.len() <= s.len() && stands_at(
            s,
            pat,
            first_match(s, pat, from),
        )),
        from <= s.len() ==> from <= first_match(s, pat, from),
    decreases s.len() - from,
{
    if from < s.len() && from + pat.len() <= s.len() && !stands_at(s, pat, from) {
        lemma_first_match_bounds(s, pat, from + 1);
    }
}

} // verus!
