use vstd::prelude::*;
use crate::reader::{
    end_marker, entries, first_match, is_space, lemma_first_match_bounds, line_end, node_lines,
    section, section_marker, stands_at, token_end, tokens, NodeLine,
};

verus! {

/// The bytes of the head line of a written file, `TYPE : TSP`, with its
/// line feed.
pub open spec fn file_head() -> Seq<u8> {
    seq![84u8, 89, 80, 69, 32, 58, 32, 84, 83, 80, 10]
}

/// The decimal digits of `n`.
pub open spec fn digits(n: nat) -> Seq<u8>
    decreases n,
{
    if n < 10 {
        seq![(48 + n) as u8]
    } else {
        digits(n / 10).push((48 + n % 10) as u8)
    }
}

/// One line of the node section: the index and the two fields, set apart
/// by blanks, and a line feed.
pub open spec fn node_row(index: nat, x: Seq<u8>, y: Seq<u8>) -> Seq<u8> {
    digits(index) + seq![32u8] + x + seq![32u8] + y + seq![10u8]
}

/// The first `upto` lines of the node section for the fields `f`,
/// numbered from 1.
pub open spec fn node_rows(f: Seq<(Seq<u8>, Seq<u8>)>, upto: nat) -> Seq<u8>
    decreases upto,
{
    if upto == 0 {
        Seq::empty()
    } else {
        node_rows(f, (upto - 1) as nat) + node_row(upto, f[upto - 1].0, f[upto - 1].1)
    }
}

/// The file written for the fields `f`: the head line, the section
/// marker, one line for each pair of fields, and the end marker.
#[verifier::opaque]
pub open spec fn written(f: Seq<(Seq<u8>, Seq<u8>)>) -> Seq<u8> {
    file_head() + section_marker() + seq![10u8] + node_rows(f, f.len()) + end_marker() + seq![10u8]
}

/// A field that can be read back: not empty, without white space and
/// without the letter `O`, which only the markers have.
pub open spec fn plain(t: Seq<u8>) -> bool {
    t.len() > 0 && forall|i: int| 0 <= i < t.len() ==> !is_space(#[trigger] t[i]) && t[i] != 79
}

/// Every field of `f` is [`plain`].
pub open spec fn all_plain(f: Seq<(Seq<u8>, Seq<u8>)>) -> bool {
    forall|i: int| 0 <= i < f.len() ==> plain((#[trigger] f[i]).0) && plain(f[i].1)
}

/// The digits of a number are digits, and there is one at least.
pub proof fn lemma_digits(n: nat)
    ensures
        digits(n).len() > 0,
        forall|i: int| 0 <= i < digits(n).len() ==> 48 <= #[trigger] digits(n)[i] <= 57,
    decreases n,
{
    if n >= 10 {
        lemma_digits(n / 10);
    }
}

/// A line of plain fields holds no `O`, and no line feed but its last
/// byte.
pub proof fn lemma_node_row(index: nat, x: Seq<u8>, y: Seq<u8>)
    requires
        plain(x),
        plain(y),
    ensures
        forall|i: int|
            0 <= i < node_row(index, x, y).len() ==> #[trigger] node_row(index, x, y)[i] != 79,
        forall|i: int|
            0 <= i < node_row(index, x, y).len() - 1 ==> #[trigger] node_row(index, x, y)[i] != 10,
        node_row(index, x, y).last() == 10,
{
    lemma_digits(index);
    let d = digits(index);
    let row = node_row(index, x, y);
    assert forall|i: int| 0 <= i < row.len() implies #[trigger] row[i] != 79 && (i < row.len() - 1
        ==> row[i] != 10) by {
        if i < d.len() {
            assert(row[i] == d[i]);
        } else if i == d.len() {
        } else if i < d.len() + 1 + x.len() {
            assert(row[i] == x[i - d.len() - 1]);
        } else if i == d.len() + 1 + x.len() {
        } else if i < d.len() + 2 + x.len() + y.len() {
            assert(row[i] == y[i - d.len() - 2 - x.len()]);
        }
    }
}

/// The lines of plain fields hold no `O`.
pub proof fn lemma_node_rows_hold_no_o(f: Seq<(Seq<u8>, Seq<u8>)>, upto: nat)
    requires
        all_plain(f),
        upto <= f.len(),
    ensures
        forall|i: int| 0 <= i < node_rows(f, upto).len() ==> #[trigger] node_rows(f, upto)[i] != 79,
    decreases upto,
{
    if upto > 0 {
        lemma_node_rows_hold_no_o(f, (upto - 1) as nat);
        lemma_node_row(upto, f[upto - 1].0, f[upto - 1].1);
        let before = node_rows(f, (upto - 1) as nat);
        let row = node_row(upto, f[upto - 1].0, f[upto - 1].1);
        assert forall|i: int| 0 <= i < node_rows(f, upto).len() implies #[trigger] node_rows(
            f,
            upto,
        )[i] != 79 by {
            if i < before.len() {
                assert(node_rows(f, upto)[i] == before[i]);
            } else {
                assert(node_rows(f, upto)[i] == row[i - before.len()]);
            }
        }
    }
}

/// The first lines of a node section are where that section begins.
pub proof fn lemma_node_rows_begin(f: Seq<(Seq<u8>, Seq<u8>)>, k: nat, n: nat)
    requires
        k <= n,
    ensures
        node_rows(f, k).len() <= node_rows(f, n).len(),
        node_rows(f, n).subrange(0, node_rows(f, k).len() as int) == node_rows(f, k),
    decreases n,
{
    if k < n {
        lemma_node_rows_begin(f, k, (n - 1) as nat);
        let before = node_rows(f, (n - 1) as nat);
        assert(node_rows(f, n).subrange(0, node_rows(f, k).len() as int) =~= before.subrange(
            0,
            node_rows(f, k).len() as int,
        ));
    } else {
        assert(node_rows(f, n).subrange(0, node_rows(f, n).len() as int) =~= node_rows(f, n));
    }
}

/// Where the pattern stands nowhere from `from` up to `to`, the search
/// from `from` gives what the search from `to` gives.
pub proof fn lemma_first_match_skips(s: Seq<u8>, pat: Seq<u8>, from: int, to: int)
    requires
        0 <= from <= to,
        to + pat.len() <= s.len(),
        to < s.len(),
        forall|i: int| from <= i < to ==> !stands_at(s, pat, i),
    ensures
        first_match(s, pat, from) == first_match(s, pat, to),
    decreases to - from,
{
    if from < to {
        lemma_first_match_skips(s, pat, from + 1, to);
    }
}

/// Where no line feed stands from `from` up to `to`, the line that begins
/// at `from` ends where the one that begins at `to` ends.
pub proof fn lemma_line_end_skips(s: Seq<u8>, from: int, to: int)
    requires
        0 <= from <= to <= s.len(),
        forall|i: int| from <= i < to ==> s[i] != 10,
    ensures
        line_end(s, from) == line_end(s, to),
    decreases to - from,
{
    if from < to {
        lemma_line_end_skips(s, from + 1, to);
    }
}

/// Where no white space stands from `from` up to `t`, the field that
/// begins at `from` ends where the one that begins at `t` ends.
pub proof fn lemma_token_end_skips(s: Seq<u8>, from: int, t: int, to: int)
    requires
        0 <= from <= t <= to <= s.len(),
        forall|i: int| from <= i < t ==> !is_space(s[i]),
    ensures
        token_end(s, from, to) == token_end(s, t, to),
    decreases t - from,
{
    if from < t {
        lemma_token_end_skips(s, from + 1, t, to);
    }
}

/// A line made of three runs without white space, set apart by one blank
/// each, has those three runs as its fields.
pub proof fn lemma_three_fields(s: Seq<u8>, from: int, a: int, b: int, to: int)
    requires
        0 <= from < a,
        a + 1 < b,
        b + 1 < to <= s.len(),
        forall|i: int| from <= i < a ==> !is_space(s[i]),
        s[a] == 32,
        forall|i: int| a < i < b ==> !is_space(s[i]),
        s[b] == 32,
        forall|i: int| b < i < to ==> !is_space(s[i]),
    ensures
        tokens(s, from, to) == seq![
            s.subrange(from, a),
            s.subrange(a + 1, b),
            s.subrange(b + 1, to),
        ],
{
    lemma_token_end_skips(s, from, a, to);
    lemma_token_end_skips(s, a + 1, b, to);
    lemma_token_end_skips(s, b + 1, to, to);
    reveal_with_fuel(tokens, 6);
    assert(token_end(s, from, to) == a);
    assert(token_end(s, a + 1, to) == b);
    assert(token_end(s, b + 1, to) == to);
    assert(tokens(s, to, to) =~= Seq::<Seq<u8>>::empty());
    assert(tokens(s, b + 1, to) =~= seq![s.subrange(b + 1, to)]);
    assert(tokens(s, b, to) == tokens(s, b + 1, to));
    assert(tokens(s, a + 1, to) =~= seq![s.subrange(a + 1, b), s.subrange(b + 1, to)]);
    assert(tokens(s, a, to) == tokens(s, a + 1, to));
    assert(tokens(s, from, to) =~= seq![
        s.subrange(from, a),
        s.subrange(a + 1, b),
        s.subrange(b + 1, to),
    ]);
}

/// How a line is laid out: the digits, a blank, the first field, a
/// blank, the second field, a line feed.
pub proof fn lemma_row_layout(index: nat, x: Seq<u8>, y: Seq<u8>)
    ensures
        node_row(index, x, y).len() == digits(index).len() + x.len() + y.len() + 3,
        forall|j: int|
            0 <= j < digits(index).len() ==> #[trigger] node_row(index, x, y)[j] == digits(index)[j],
        node_row(index, x, y)[digits(index).len() as int] == 32,
        forall|j: int|
            0 <= j < x.len() ==> node_row(index, x, y)[digits(index).len() + 1 + j] == #[trigger] x[j],
        node_row(index, x, y)[digits(index).len() + 1 + x.len() as int] == 32,
        forall|j: int|
            0 <= j < y.len() ==> node_row(index, x, y)[digits(index).len() + 2 + x.len() + j]
                == #[trigger] y[j],
        node_row(index, x, y)[digits(index).len() + 2 + x.len() + y.len() as int] == 10,
{
}

/// A line of plain fields that stands in `s` at `from` ends with its line
/// feed and has the digits and the two fields as its fields.
pub proof fn lemma_row_reads(s: Seq<u8>, from: int, index: nat, x: Seq<u8>, y: Seq<u8>)
    requires
        plain(x),
        plain(y),
        0 <= from,
        from + node_row(index, x, y).len() <= s.len(),
        forall|j: int|
            0 <= j < node_row(index, x, y).len() ==> #[trigger] s[from + j] == node_row(
                index,
                x,
                y,
            )[j],
    ensures
        line_end(s, from) == from + node_row(index, x, y).len() - 1,
        tokens(s, from, from + node_row(index, x, y).len() - 1) == seq![digits(index), x, y],
{
    let d = digits(index);
    let row = node_row(index, x, y);
    lemma_digits(index);
    lemma_row_layout(index, x, y);
    let a: int = from + d.len();
    let b: int = a + 1 + x.len();
    let e: int = b + 1 + y.len();
    assert forall|i: int| from <= i < a implies !is_space(s[i]) && s[i] == d[i - from] by {
        assert(s[from + (i - from)] == row[i - from]);
    }
    assert(s[a] == 32) by {
        assert(s[from + (a - from)] == row[a - from]);
    }
    assert forall|i: int| a < i < b implies !is_space(s[i]) && s[i] == x[i - a - 1] by {
        assert(s[from + (i - from)] == row[i - from]);
        assert(row[d.len() + 1 + (i - a - 1)] == x[i - a - 1]);
    }
    assert(s[b] == 32) by {
        assert(s[from + (b - from)] == row[b - from]);
    }
    assert forall|i: int| b < i < e implies !is_space(s[i]) && s[i] == y[i - b - 1] by {
        assert(s[from + (i - from)] == row[i - from]);
        assert(row[d.len() + 2 + x.len() + (i - b - 1)] == y[i - b - 1]);
    }
    assert(s[e] == 10) by {
        assert(s[from + (e - from)] == row[e - from]);
    }
    assert forall|i: int| from <= i < e implies s[i] != 10 by {
        if i == a || i == b {
        } else {
            assert(!is_space(s[i]));
        }
    }
    lemma_line_end_skips(s, from, e);
    lemma_three_fields(s, from, a, b, e);
    assert(s.subrange(from, a) =~= d);
    assert(s.subrange(a + 1, b) =~= x);
    assert(s.subrange(b + 1, e) =~= y);
}

/// Reading the lines written for plain fields, from line `k` on, gives the
/// fields from the `k`-th on.
pub proof fn lemma_rows_read_back(f: Seq<(Seq<u8>, Seq<u8>)>, k: nat)
    requires
        all_plain(f),
        k <= f.len(),
    ensures
        entries(seq![10u8] + node_rows(f, f.len()), 1 + node_rows(f, k).len() as int) == f.skip(
            k as int,
        ),
    decreases f.len() - k,
{
    let n = f.len();
    let rows = node_rows(f, n);
    let s = seq![10u8] + rows;
    let from: int = 1 + node_rows(f, k).len() as int;
    lemma_node_rows_begin(f, k, n);
    if k == n {
        assert(f.skip(k as int) =~= Seq::<(Seq<u8>, Seq<u8>)>::empty());
    } else {
        let x = f[k as int].0;
        let y = f[k as int].1;
        let row = node_row(k + 1, x, y);
        lemma_node_rows_begin(f, k + 1, n);
        lemma_rows_read_back(f, k + 1);
        assert(node_rows(f, k + 1) == node_rows(f, k) + row);
        assert forall|j: int| 0 <= j < row.len() implies #[trigger] s[from + j] == row[j] by {
            assert(rows.subrange(0, node_rows(f, k + 1).len() as int)[from - 1 + j] == rows[from
                - 1 + j]);
            assert(node_rows(f, k + 1)[from - 1 + j] == row[j]);
        }
        lemma_row_reads(s, from, k + 1, x, y);
        let e: int = from + row.len() - 1;
        assert(e + 1 == 1 + node_rows(f, k + 1).len());
        assert(seq![(x, y)] + f.skip(k as int + 1) =~= f.skip(k as int));
        if e + 1 == s.len() {
            assert(entries(s, e + 1) =~= Seq::<(Seq<u8>, Seq<u8>)>::empty());
        }
    }
}

/// How a written file is laid out.
pub proof fn lemma_written_layout(f: Seq<(Seq<u8>, Seq<u8>)>)
    ensures
        written(f).len() == 34 + node_rows(f, f.len()).len(),
        forall|i: int| 0 <= i < 11 ==> #[trigger] written(f)[i] == file_head()[i],
        forall|i: int| 0 <= i < 18 ==> written(f)[11 + i] == #[trigger] section_marker()[i],
        written(f)[29] == 10,
        forall|i: int|
            0 <= i < node_rows(f, f.len()).len() ==> written(f)[30 + i] == #[trigger] node_rows(
                f,
                f.len(),
            )[i],
        forall|i: int|
            0 <= i < 3 ==> written(f)[30 + node_rows(f, f.len()).len() + i]
                == #[trigger] end_marker()[i],
{
    reveal(written);
}

/// Where a text has no `N` before position 11, the section marker at 11,
/// no `O` from 30 up to `p`, and the end marker at `p` as its last bytes
/// but one: the first section marker is the one at 11, the first end
/// marker from 29 on is the one at `p`, and no section marker stands from
/// 29 up to `p`.
pub proof fn lemma_scan(w: Seq<u8>, p: int)
    requires
        30 <= p,
        w.len() == p + 4,
        forall|i: int| 0 <= i < 11 ==> #[trigger] w[i] != 78,
        stands_at(w, section_marker(), 11),
        forall|j: int| 30 <= j < p ==> #[trigger] w[j] != 79,
        stands_at(w, end_marker(), p),
    ensures
        first_match(w, section_marker(), 0) == 11,
        first_match(w, end_marker(), 29) == p,
        first_match(w, section_marker(), 29) > p,
{
    let marker = section_marker();
    let end = end_marker();
    assert(marker[0] == 78 && marker[1] == 79 && marker.len() == 18);
    assert(end[0] == 69 && end[1] == 79 && end.len() == 3);
    assert(w[p] == 69) by {
        assert(w.subrange(p, p + 3)[0] == end[0]);
    }
    assert forall|i: int| 0 <= i < 11 implies !stands_at(w, marker, i) by {
        if stands_at(w, marker, i) {
            assert(w.subrange(i, i + 18)[0] == marker[0]);
            assert(w[i] == 78);
        }
    }
    lemma_first_match_skips(w, marker, 0, 11);
    assert forall|i: int| 29 <= i < p implies !stands_at(w, end, i) by {
        if stands_at(w, end, i) {
            assert(w.subrange(i, i + 3)[1] == end[1]);
            assert(w[i + 1] == 79);
        }
    }
    lemma_first_match_skips(w, end, 29, p);
    assert forall|i: int| 29 <= i && i + 18 <= w.len() && i < p + 1 implies !stands_at(
        w,
        marker,
        i,
    ) by {
        if stands_at(w, marker, i) {
            assert(w.subrange(i, i + 18)[1] == marker[1]);
            assert(w.subrange(i, i + 18)[0] == marker[0]);
            assert(w[i + 1] == 79 && w[i] == 78);
        }
    }
    if p + 1 + 18 <= w.len() {
        lemma_first_match_skips(w, marker, 29, p + 1);
        lemma_first_match_bounds(w, marker, p + 1);
    } else {
        lemma_no_room_no_match(w, marker, 29);
    }
}

/// In a file written for plain fields the first section marker is the one
/// behind the head line; behind it, the first end marker is the one
/// behind the lines, and no section marker comes before that.
pub proof fn lemma_written_markers(f: Seq<(Seq<u8>, Seq<u8>)>)
    requires
        all_plain(f),
    ensures
        first_match(written(f), section_marker(), 0) == 11,
        first_match(written(f), end_marker(), 29) == 30 + node_rows(f, f.len()).len(),
        first_match(written(f), section_marker(), 29) > 30 + node_rows(f, f.len()).len(),
{
    let rows = node_rows(f, f.len());
    let w = written(f);
    let p: int = 30 + rows.len() as int;
    lemma_node_rows_hold_no_o(f, f.len());
    lemma_written_layout(f);
    assert forall|i: int| 0 <= i < 11 implies #[trigger] w[i] != 78 by {
        assert(w[i] == file_head()[i]);
    }
    assert(stands_at(w, section_marker(), 11)) by {
        assert(w.subrange(11, 29) =~= section_marker());
    }
    assert forall|j: int| 30 <= j < p implies #[trigger] w[j] != 79 by {
        assert(w[30 + (j - 30)] == rows[j - 30]);
    }
    assert(stands_at(w, end_marker(), p)) by {
        assert(w.subrange(p, p + 3) =~= end_marker());
    }
    lemma_scan(w, p);
}

/// Reading a written file gives back the fields it was written for, as
/// long as they are plain.
pub proof fn lemma_round_trip(f: Seq<(Seq<u8>, Seq<u8>)>)
    requires
        all_plain(f),
    ensures
        node_lines(written(f)) == f,
{
    let rows = node_rows(f, f.len());
    let w = written(f);
    let s = seq![10u8] + rows;
    lemma_written_layout(f);
    lemma_written_markers(f);
    assert(section_marker().len() == 18);
    assert(section(w) =~= s) by {
        assert forall|j: int| 0 <= j < s.len() implies w[29 + j] == s[j] by {
            if j > 0 {
                assert(w[30 + (j - 1)] == rows[j - 1]);
            }
        }
    }
    lemma_rows_read_back(f, 0);
    assert(f.skip(0) =~= f);
    assert(line_end(s, 0) == 0);
    assert(tokens(s, 0, 0) =~= Seq::<Seq<u8>>::empty());
    if s.len() == 1 {
        assert(entries(s, 1) =~= Seq::<(Seq<u8>, Seq<u8>)>::empty());
    }
    assert(entries(s, 0) =~= entries(s, 1));
}

/// Where the pattern stands nowhere from `from` on, the search finds
/// nothing.
pub proof fn lemma_no_room_no_match(s: Seq<u8>, pat: Seq<u8>, from: int)
    requires
        0 <= from,
        forall|i: int| from <= i && i + pat.len() <= s.len() ==> !stands_at(s, pat, i),
    ensures
        first_match(s, pat, from) == s.len(),
    decreases s.len() - from,
{
    if from < s.len() && from + pat.len() <= s.len() {
        lemma_no_room_no_match(s, pat, from + 1);
    }
}

/// Appends the decimal digits of `n`.
fn push_digits(out: &mut Vec<u8>, n: usize)
    ensures
        final(out)@ == old(out)@ + digits(n as nat),
    decreases n,
{
    if n >= 10 {
        push_digits(out, n / 10);
    }
    let ghost before = out@;
    out.push((48 + n % 10) as u8);
    proof {
        if n >= 10 {
            assert(out@ =~= old(out)@ + digits(n as nat));
        } else {
            assert(out@ =~= old(out)@ + digits(n as nat));
        }
    }
}

/// Appends the bytes of `more`.
fn push_bytes(out: &mut Vec<u8>, more: &[u8])
    ensures
        final(out)@ == old(out)@ + more@,
{
    let mut i: usize = 0;
    while i < more.len()
        invariant
            i <= more@.len(),
            out@ == old(out)@ + more@.take(i as int),
        decreases more@.len() - i,
    {
        out.push(more[i]);
        proof {
            assert(out@ =~= old(out)@ + more@.take(i + 1));
        }
        i += 1;
    }
    proof {
        assert(more@.take(more@.len() as int) =~= more@);
    }
}

/// The text of a tour file: the head line, `NODE_COORD_SECTION`, one line
/// for each pair of fields with its number, counted from 1, and `EOF`.
pub fn write_file(lines: &Vec<NodeLine>) -> (r: Vec<u8>)
    ensures
        r@ == written(lines@.map_values(|l: NodeLine| l.fields())),
{
    let ghost f = lines@.map_values(|l: NodeLine| l.fields());
    let head: [u8; 11] = [84, 89, 80, 69, 32, 58, 32, 84, 83, 80, 10];
    let marker: [u8; 18] = [78, 79, 68, 69, 95, 67, 79, 79, 82, 68, 95, 83, 69, 67, 84, 73, 79, 78];
    let end: [u8; 3] = [69, 79, 70];
    proof {
        assert(head@ =~= file_head());
        assert(marker@ =~= section_marker());
        assert(end@ =~= end_marker());
    }
    let mut out: Vec<u8> = Vec::new();
    push_bytes(&mut out, head.as_slice());
    push_bytes(&mut out, marker.as_slice());
    out.push(10);
    let ghost top = out@;
    proof {
        assert(top =~= file_head() + section_marker() + seq![10u8]);
    }
    let mut i: usize = 0;
    while i < lines.len()
        invariant
            i <= lines.len(),
            f == lines@.map_values(|l: NodeLine| l.fields()),
            out@ == top + node_rows(f, i as nat),
        decreases lines.len() - i,
    {
        let ghost before = out@;
        push_digits(&mut out, i + 1);
        out.push(32);
        push_bytes(&mut out, lines[i].x.as_slice());
        out.push(32);
        push_bytes(&mut out, lines[i].y.as_slice());
        out.push(10);
        proof {
            assert(f[i as int] == lines@[i as int].fields());
            assert(out@ =~= top + (node_rows(f, i as nat) + node_row(
                (i + 1) as nat,
                f[i as int].0,
                f[i as int].1,
            )));
        }
        i += 1;
    }
    push_bytes(&mut out, end.as_slice());
    out.push(10);
    proof {
        reveal(written);
        assert(out@ =~= written(f));
    }
    out
}

} // verus!
