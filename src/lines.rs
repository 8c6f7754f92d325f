//! Segmentation of a byte stream into lines, each keeping its terminator.
use vstd::prelude::*;

verus! {

/// The line terminator.
pub const NEWLINE: u8 = 10;

/// End (exclusive) of the line that starts at `i`: one past the first
/// newline at or after `i`, or the end of `b`.
pub open spec fn line_end(b: Seq<u8>, i: int) -> int
    decreases b.len() - i,
{
    if i < 0 || i >= b.len() - 1 || b[i] == NEWLINE {
        i + 1
    } else {
        line_end(b, i + 1)
    }
}

/// The lines of `b` from position `i` on, each with its terminator.
pub open spec fn lines_from(b: Seq<u8>, i: int) -> Seq<Seq<u8>>
    decreases b.len() - i,
{
    if i < 0 || i >= b.len() {
        seq![]
    } else {
        let j = line_end(b, i);
        if j <= i || j > b.len() {
            seq![]
        } else {
            seq![b.subrange(i, j)] + lines_from(b, j)
        }
    }
}

/// The lines of `b`: every line but the last ends with a newline, and the
/// last one does when `b` does.
pub open spec fn lines_of(b: Seq<u8>) -> Seq<Seq<u8>> {
    lines_from(b, 0)
}

/// A line's content: the line without its terminator.
pub open spec fn content(l: Seq<u8>) -> Seq<u8> {
    if l.len() > 0 && l.last() == NEWLINE {
        l.drop_last()
    } else {
        l
    }
}

/// Sum of `f` over the lines of `b` from position `i` on.
pub open spec fn sum_lines_from(b: Seq<u8>, i: int, f: spec_fn(Seq<u8>) -> nat) -> nat
    decreases b.len() - i,
{
    if i < 0 || i >= b.len() {
        0
    } else {
        let j = line_end(b, i);
        if j <= i || j > b.len() {
            0
        } else {
            f(b.subrange(i, j)) + sum_lines_from(b, j, f)
        }
    }
}

/// A line end lies past its start, within `b`, and only its last byte can
/// be a newline.
pub proof fn lemma_line_end(b: Seq<u8>, i: int)
    requires
        0 <= i < b.len(),
    ensures
        i < line_end(b, i) <= b.len(),
        forall|k: int| i <= k < line_end(b, i) - 1 ==> b[k] != NEWLINE,
        line_end(b, i) == b.len() || b[line_end(b, i) - 1] == NEWLINE,
    decreases b.len() - i,
{
    if !(i >= b.len() - 1 || b[i] == NEWLINE) {
        lemma_line_end(b, i + 1);
    }
}

/// End (exclusive) of the line of `b` that starts at `start`.
pub fn find_line_end(b: &[u8], start: usize) -> (end: usize)
    requires
        start < b@.len(),
    ensures
        end == line_end(b@, start as int),
        start < end <= b@.len(),
{
    proof {
        lemma_line_end(b@, start as int);
    }
    let mut k: usize = start;
    while k < b.len() - 1 && b[k] != NEWLINE
        invariant
            start <= k < b@.len(),
            line_end(b@, k as int) == line_end(b@, start as int),
        decreases b@.len() - k,
    {
        k = k + 1;
    }
    k + 1
}

/// Line ends in `r` are line ends in `x + r`, shifted by the length of `x`.
pub proof fn lemma_line_end_shift(x: Seq<u8>, r: Seq<u8>, i: int)
    requires
        0 <= i < r.len(),
    ensures
        line_end(x + r, x.len() + i) == x.len() + line_end(r, i),
    decreases r.len() - i,
{
    assert((x + r)[x.len() + i] == r[i]);
    if !(i >= r.len() - 1 || r[i] == NEWLINE) {
        lemma_line_end_shift(x, r, i + 1);
    }
}

/// The lines of `x + r` from a position in `r` are those of `r`.
pub proof fn lemma_lines_shift(x: Seq<u8>, r: Seq<u8>, i: int)
    requires
        0 <= i <= r.len(),
    ensures
        lines_from(x + r, x.len() + i) == lines_from(r, i),
    decreases r.len() - i,
{
    if i < r.len() {
        lemma_line_end_shift(x, r, i);
        lemma_line_end(r, i);
        let j = line_end(r, i);
        lemma_lines_shift(x, r, j);
        assert((x + r).subrange(x.len() + i, x.len() + j) =~= r.subrange(i, j));
    }
}

/// Within `x`, which ends with a newline, line ends do not depend on what follows.
pub proof fn lemma_line_end_prefix(x: Seq<u8>, r: Seq<u8>, i: int)
    requires
        0 <= i < x.len(),
        x.last() == NEWLINE,
    ensures
        line_end(x + r, i) == line_end(x, i),
    decreases x.len() - i,
{
    assert((x + r)[i] == x[i]);
    if i < x.len() - 1 && x[i] != NEWLINE {
        lemma_line_end_prefix(x, r, i + 1);
    }
}

/// The lines of `x + r`, where `x` is empty or ends with a newline, are the
/// lines of `x` followed by those of `r`.
pub proof fn lemma_lines_concat(x: Seq<u8>, r: Seq<u8>, i: int)
    requires
        0 <= i <= x.len(),
        x.len() == 0 || x.last() == NEWLINE,
    ensures
        lines_from(x + r, i) == lines_from(x, i) + lines_from(r, 0),
    decreases x.len() - i,
{
    if i == x.len() {
        lemma_lines_shift(x, r, 0);
        assert(lines_from(x, i) =~= seq![]);
        assert(lines_from(x + r, i) =~= lines_from(x, i) + lines_from(r, 0));
    } else {
        lemma_line_end_prefix(x, r, i);
        lemma_line_end(x, i);
        let j = line_end(x, i);
        lemma_lines_concat(x, r, j);
        assert((x + r).subrange(i, j) =~= x.subrange(i, j));
        assert(lines_from(x + r, i) =~= lines_from(x, i) + lines_from(r, 0));
    }
}

/// A line: non-empty, with no newline but possibly its last byte.
pub open spec fn is_line(l: Seq<u8>) -> bool {
    &&& l.len() > 0
    &&& forall|k: int| 0 <= k < l.len() - 1 ==> l[k] != NEWLINE
}

/// A line is its own one line.
pub proof fn lemma_lines_of_line(l: Seq<u8>)
    requires
        is_line(l),
    ensures
        lines_of(l) == seq![l],
{
    lemma_line_end(l, 0);
    let j = line_end(l, 0);
    if j < l.len() {
        assert(l[j - 1] != NEWLINE);
    }
    assert(l.subrange(0, j) =~= l);
    assert(lines_from(l, j) =~= seq![]);
    assert(lines_of(l) =~= seq![l]);
}

/// Every line of `b` from position `i` on is a line, and all but the last
/// end with a newline.
pub proof fn lemma_lines_are_lines(b: Seq<u8>, i: int)
    requires
        0 <= i <= b.len(),
    ensures
        forall|k: int| 0 <= k < lines_from(b, i).len() ==> is_line(#[trigger] lines_from(b, i)[k]),
        forall|k: int|
            0 <= k < lines_from(b, i).len() - 1 ==> #[trigger] lines_from(b, i)[k].last()
                == NEWLINE,
    decreases b.len() - i,
{
    if i < b.len() {
        lemma_line_end(b, i);
        let j = line_end(b, i);
        lemma_lines_are_lines(b, j);
        let l = b.subrange(i, j);
        assert(is_line(l));
        let ls = lines_from(b, i);
        assert(ls == seq![l] + lines_from(b, j));
        if j < b.len() {
            lemma_line_end(b, j);
            assert(l.last() == NEWLINE);
        } else {
            assert(lines_from(b, j) =~= seq![]);
        }
        assert forall|k: int| 0 <= k < ls.len() implies is_line(#[trigger] ls[k]) by {
            if k > 0 {
                assert(ls[k] == lines_from(b, j)[k - 1]);
            }
        }
        assert forall|k: int| 0 <= k < ls.len() - 1 implies #[trigger] ls[k].last() == NEWLINE by {
            if k > 0 {
                assert(ls[k] == lines_from(b, j)[k - 1]);
            }
        }
    }
}

/// The lines `ts`, each given its terminator, one after another.
pub open spec fn join_terminated(ts: Seq<Seq<u8>>) -> Seq<u8>
    decreases ts.len(),
{
    if ts.len() == 0 {
        seq![]
    } else {
        join_terminated(ts.drop_last()) + ts.last() + seq![NEWLINE]
    }
}

/// Text made of lines without newlines, each terminated, splits back into
/// exactly those lines.
pub proof fn lemma_join_terminated(ts: Seq<Seq<u8>>)
    requires
        forall|k: int, m: int| 0 <= k < ts.len() && 0 <= m < ts[k].len() ==> #[trigger] ts[k][m]
            != NEWLINE,
    ensures
        lines_of(join_terminated(ts)).len() == ts.len(),
        lines_of(join_terminated(ts)) == ts.map_values(|t: Seq<u8>| t + seq![NEWLINE]),
    decreases ts.len(),
{
    if ts.len() == 0 {
        assert(lines_of(seq![]) =~= seq![]);
        assert(ts.map_values(|t: Seq<u8>| t + seq![NEWLINE]) =~= seq![]);
    } else {
        let init = ts.drop_last();
        lemma_join_terminated(init);
        let x = join_terminated(init);
        let l = ts.last() + seq![NEWLINE];
        assert forall|k: int| 0 <= k < l.len() - 1 implies l[k] != NEWLINE by {
            assert(l[k] == ts[ts.len() - 1][k]);
        }
        lemma_lines_of_line(l);
        if init.len() > 0 {
            assert(x.last() == NEWLINE);
        }
        lemma_lines_concat(x, l, 0);
        assert(join_terminated(ts) == x + l);
        assert(lines_of(join_terminated(ts)) =~= ts.map_values(|t: Seq<u8>| t + seq![NEWLINE]));
    }
}

} // verus!
