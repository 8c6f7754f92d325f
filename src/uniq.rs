//! Collapsing of runs of adjacent lines with equal content.
use vstd::prelude::*;
use crate::lines::{
    content, find_line_end, is_line, lemma_line_end, lemma_lines_are_lines, lemma_lines_concat,
    lemma_lines_of_line, lines_from, lines_of, NEWLINE,
};
use crate::text::{padded, push_padded, SPACE};

verus! {

/// Where a run reads its lines from and writes its output, and whether each
/// line is prefixed by the length of its run.
pub struct Args {
    pub in_file: String,
    pub out_file: Option<String>,
    pub count: bool,
}

/// The runs of `ls`: each maximal stretch of adjacent lines of equal content,
/// as its first line and its length.
pub open spec fn collapse(ls: Seq<Seq<u8>>) -> Seq<(Seq<u8>, nat)>
    decreases ls.len(),
{
    if ls.len() == 0 {
        seq![]
    } else {
        let p = collapse(ls.drop_last());
        let l = ls.last();
        if p.len() > 0 && content(p.last().0) == content(l) {
            p.update(p.len() - 1, (p.last().0, p.last().1 + 1))
        } else {
            p.push((l, 1nat))
        }
    }
}

/// `l` with a newline added when it is non-empty and lacks one.
pub open spec fn terminated(l: Seq<u8>) -> Seq<u8> {
    if l.len() > 0 && l.last() != NEWLINE {
        l.push(NEWLINE)
    } else {
        l
    }
}

/// The output for one run: in count mode its length right-aligned to width
/// seven and a space, then its first line, terminated.
pub open spec fn run_text(r: (Seq<u8>, nat), count: bool) -> Seq<u8> {
    (if count {
        padded(r.1, 7) + seq![SPACE]
    } else {
        seq![]
    }) + terminated(r.0)
}

pub open spec fn runs_text(rs: Seq<(Seq<u8>, nat)>, count: bool) -> Seq<u8>
    decreases rs.len(),
{
    if rs.len() == 0 {
        seq![]
    } else {
        runs_text(rs.drop_last(), count) + run_text(rs.last(), count)
    }
}

/// The output of collapsing the lines of `b`.
pub open spec fn uniq_text(b: Seq<u8>, count: bool) -> Seq<u8> {
    runs_text(collapse(lines_of(b)), count)
}

/// End of the content of the line `b[start..end]`.
fn content_end(b: &[u8], start: usize, end: usize) -> (r: usize)
    requires
        start < end <= b@.len(),
    ensures
        b@.subrange(start as int, r as int) == content(b@.subrange(start as int, end as int)),
        start <= r <= end,
{
    let ghost l = b@.subrange(start as int, end as int);
    if b[end - 1] == NEWLINE {
        proof {
            assert(b@.subrange(start as int, end - 1) =~= l.drop_last());
        }
        end - 1
    } else {
        end
    }
}

/// Whether the lines `b[s1..e1]` and `b[s2..e2]` have equal content.
fn same_content(b: &[u8], s1: usize, e1: usize, s2: usize, e2: usize) -> (r: bool)
    requires
        s1 < e1 <= b@.len(),
        s2 < e2 <= b@.len(),
    ensures
        r == (content(b@.subrange(s1 as int, e1 as int)) == content(
            b@.subrange(s2 as int, e2 as int),
        )),
{
    let c1 = content_end(b, s1, e1);
    let c2 = content_end(b, s2, e2);
    let ghost x = b@.subrange(s1 as int, c1 as int);
    let ghost y = b@.subrange(s2 as int, c2 as int);
    if c1 - s1 != c2 - s2 {
        proof {
            assert(x.len() != y.len());
        }
        return false;
    }
    let mut k: usize = 0;
    while k < c1 - s1
        invariant
            s1 <= c1 <= b@.len(),
            s2 <= c2 <= b@.len(),
            c1 - s1 == c2 - s2,
            x == b@.subrange(s1 as int, c1 as int),
            y == b@.subrange(s2 as int, c2 as int),
            x == content(b@.subrange(s1 as int, e1 as int)),
            y == content(b@.subrange(s2 as int, e2 as int)),
            k <= c1 - s1,
            forall|i: int| 0 <= i < k ==> x[i] == y[i],
        decreases c1 - s1 - k,
    {
        if b[s1 + k] != b[s2 + k] {
            proof {
                assert(x[k as int] != y[k as int]);
            }
            return false;
        }
        k = k + 1;
    }
    proof {
        assert(x =~= y);
    }
    true
}

/// Appends the output for a run of `n` lines whose first is `b[s..e]`.
fn push_run(out: &mut Vec<u8>, b: &[u8], s: usize, e: usize, n: usize, count: bool)
    requires
        s < e <= b@.len(),
    ensures
        final(out)@ == old(out)@ + run_text((b@.subrange(s as int, e as int), n as nat), count),
{
    let ghost l = b@.subrange(s as int, e as int);
    let ghost start = out@;
    if count {
        push_padded(out, n, 7);
        out.push(SPACE);
    }
    let ghost mid = out@;
    let mut k: usize = s;
    while k < e
        invariant
            s <= k <= e <= b@.len(),
            out@ == mid + b@.subrange(s as int, k as int),
        decreases e - k,
    {
        out.push(b[k]);
        proof {
            assert(out@ =~= mid + b@.subrange(s as int, k + 1));
        }
        k = k + 1;
    }
    if b[e - 1] != NEWLINE {
        out.push(NEWLINE);
    }
    proof {
        assert(l.last() == b@[e - 1]);
        assert(out@ =~= start + run_text((l, n as nat), count));
    }
}

/// Collapses each run of adjacent lines of equal content in `data` to its
/// first line, prefixed in count mode by the length of the run. The output
/// always ends with a newline when it is not empty.
pub fn collapse_runs(data: &[u8], count: bool) -> (r: Vec<u8>)
    ensures
        r@ == uniq_text(data@, count),
{
    let ghost b = data@;
    let mut out: Vec<u8> = Vec::new();
    let ghost mut seen: Seq<Seq<u8>> = seq![];
    let mut ps: usize = 0;
    let mut pe: usize = 0;
    let mut n: usize = 0;
    let mut pos: usize = 0;
    while pos < data.len()
        invariant
            b == data@,
            pos <= b.len(),
            lines_of(b) == seen + lines_from(b, pos as int),
            n <= pos,
            (seen.len() == 0) == (pos == 0),
            pos == 0 ==> out@ == Seq::<u8>::empty(),
            seen.len() > 0 ==> {
                &&& ps < pe <= b.len()
                &&& collapse(seen).len() > 0
                &&& collapse(seen).last() == (b.subrange(ps as int, pe as int), n as nat)
                &&& out@ == runs_text(collapse(seen).drop_last(), count)
            },
        decreases b.len() - pos,
    {
        let end = find_line_end(data, pos);
        proof {
            lemma_line_end(b, pos as int);
            let l = b.subrange(pos as int, end as int);
            assert(lines_from(b, pos as int) == seq![l] + lines_from(b, end as int));
            assert(lines_of(b) =~= seen.push(l) + lines_from(b, end as int));
            assert(seen.push(l).drop_last() =~= seen);
        }
        let ghost l = b.subrange(pos as int, end as int);
        if pos > 0 && same_content(data, ps, pe, pos, end) {
            n = n + 1;
            proof {
                let p = collapse(seen);
                let q = collapse(seen.push(l));
                assert(seen.push(l).last() == l);
                assert(content(p.last().0) == content(l));
                assert(q =~= p.update(p.len() - 1, (p.last().0, p.last().1 + 1)));
                assert(q.drop_last() =~= p.drop_last());
            }
        } else {
            if pos > 0 {
                push_run(&mut out, data, ps, pe, n, count);
                proof {
                    let p = collapse(seen);
                    assert(p.drop_last().push(p.last()) =~= p);
                    assert(out@ == runs_text(p, count));
                }
            } else {
                proof {
                    assert(seen =~= seq![]);
                }
            }
            proof {
                let q = collapse(seen.push(l));
                assert(seen.push(l).last() == l);
                assert(q.drop_last() =~= collapse(seen));
            }
            ps = pos;
            pe = end;
            n = 1;
        }
        proof {
            seen = seen.push(l);
        }
        pos = end;
    }
    proof {
        assert(lines_from(b, pos as int) =~= seq![]);
        assert(seen =~= lines_of(b));
    }
    if pos > 0 {
        push_run(&mut out, data, ps, pe, n, count);
        proof {
            let p = collapse(seen);
            assert(p.drop_last().push(p.last()) =~= p);
        }
    } else {
        proof {
            assert(seen =~= seq![]);
            assert(collapse(seen) =~= seq![]);
        }
    }
    out
}

/// The lines `ts` one after another.
pub open spec fn join_lines(ts: Seq<Seq<u8>>) -> Seq<u8>
    decreases ts.len(),
{
    if ts.len() == 0 {
        seq![]
    } else {
        join_lines(ts.drop_last()) + ts.last()
    }
}

/// The first lines of the runs `rs`, each terminated.
pub open spec fn run_lines(rs: Seq<(Seq<u8>, nat)>) -> Seq<Seq<u8>> {
    rs.map_values(|r: (Seq<u8>, nat)| terminated(r.0))
}

/// No two adjacent lines of `ts` have equal content.
pub open spec fn adjacent_distinct(ts: Seq<Seq<u8>>) -> bool {
    forall|k: int| 0 <= k < ts.len() - 1 ==> content(#[trigger] ts[k]) != content(ts[k + 1])
}

/// Lines of `ls` are lines, all but the last terminated, make runs whose
/// first lines are lines, all but the last terminated, of which no two
/// adjacent ones have equal content.
pub proof fn lemma_collapse_shape(ls: Seq<Seq<u8>>)
    requires
        forall|k: int| 0 <= k < ls.len() ==> is_line(#[trigger] ls[k]),
        forall|k: int| 0 <= k < ls.len() - 1 ==> (#[trigger] ls[k]).last() == NEWLINE,
    ensures
        forall|k: int| 0 <= k < collapse(ls).len() ==> is_line(#[trigger] collapse(ls)[k].0),
        forall|k: int|
            0 <= k < collapse(ls).len() - 1 ==> (#[trigger] collapse(ls)[k]).0.last() == NEWLINE,
        (forall|k: int| 0 <= k < ls.len() ==> (#[trigger] ls[k]).last() == NEWLINE) ==> (forall|
            k: int,
        |
            0 <= k < collapse(ls).len() ==> (#[trigger] collapse(ls)[k]).0.last() == NEWLINE),
        adjacent_distinct(run_lines(collapse(ls))),
    decreases ls.len(),
{
    if ls.len() > 0 {
        let init = ls.drop_last();
        assert forall|k: int| 0 <= k < init.len() implies (#[trigger] init[k]).last() == NEWLINE by {
            assert(init[k] == ls[k]);
        }
        assert forall|k: int| 0 <= k < init.len() implies is_line(#[trigger] init[k]) by {
            assert(init[k] == ls[k]);
        }
        lemma_collapse_shape(init);
        let p = collapse(init);
        let c = collapse(ls);
        let l = ls.last();
        assert(is_line(ls[ls.len() - 1]));
        let pl = run_lines(p);
        let cl = run_lines(c);
        if p.len() > 0 && content(p.last().0) == content(l) {
            assert(forall|k: int| 0 <= k < c.len() ==> #[trigger] c[k].0 == p[k].0);
            assert forall|k: int| 0 <= k < cl.len() - 1 implies content(#[trigger] cl[k]) != content(
                cl[k + 1],
            ) by {
                assert(cl[k] == pl[k]);
                assert(cl[k + 1] == pl[k + 1]);
            }
        } else {
            assert(c == p.push((l, 1nat)));
            assert forall|k: int| 0 <= k < cl.len() - 1 implies content(#[trigger] cl[k]) != content(
                cl[k + 1],
            ) by {
                assert(cl[k] == pl[k]);
                lemma_terminated(p[k].0);
                lemma_terminated(c[k + 1].0);
                if k + 1 < p.len() {
                    assert(cl[k + 1] == pl[k + 1]);
                }
            }
        }
    }
}

/// Terminating a line keeps its content and makes it a terminated line.
pub proof fn lemma_terminated(l: Seq<u8>)
    ensures
        content(terminated(l)) == content(l),
        is_line(l) ==> is_line(terminated(l)) && terminated(l).last() == NEWLINE,
        l.len() > 0 && l.last() == NEWLINE ==> terminated(l) == l,
{
    if l.len() > 0 && l.last() != NEWLINE {
        assert(terminated(l).drop_last() =~= l);
    }
}

/// Without counts, the output for runs is their first lines, terminated,
/// one after another.
pub proof fn lemma_runs_text_plain(rs: Seq<(Seq<u8>, nat)>)
    ensures
        runs_text(rs, false) == join_lines(run_lines(rs)),
    decreases rs.len(),
{
    if rs.len() > 0 {
        lemma_runs_text_plain(rs.drop_last());
        assert(run_lines(rs).drop_last() =~= run_lines(rs.drop_last()));
        assert(run_text(rs.last(), false) =~= terminated(rs.last().0));
    }
}

/// Terminated lines, one after another, split back into those lines.
pub proof fn lemma_lines_of_join(ts: Seq<Seq<u8>>)
    requires
        forall|k: int| 0 <= k < ts.len() ==> is_line(#[trigger] ts[k]) && ts[k].last() == NEWLINE,
    ensures
        lines_of(join_lines(ts)) == ts,
    decreases ts.len(),
{
    if ts.len() == 0 {
        assert(lines_of(seq![]) =~= ts);
    } else {
        let init = ts.drop_last();
        assert forall|k: int| 0 <= k < init.len() implies is_line(#[trigger] init[k])
            && init[k].last() == NEWLINE by {
            assert(init[k] == ts[k]);
        }
        lemma_lines_of_join(init);
        let x = join_lines(init);
        if init.len() > 0 {
            assert(x.last() == NEWLINE);
        }
        assert(is_line(ts[ts.len() - 1]));
        lemma_lines_of_line(ts.last());
        lemma_lines_concat(x, ts.last(), 0);
        assert(lines_of(join_lines(ts)) =~= ts);
    }
}

/// Lines of which no two adjacent ones have equal content are runs of one each.
pub proof fn lemma_collapse_distinct(ts: Seq<Seq<u8>>)
    requires
        adjacent_distinct(ts),
    ensures
        collapse(ts) == ts.map_values(|t: Seq<u8>| (t, 1nat)),
    decreases ts.len(),
{
    if ts.len() == 0 {
        assert(collapse(ts) =~= ts.map_values(|t: Seq<u8>| (t, 1nat)));
    } else {
        let init = ts.drop_last();
        assert(adjacent_distinct(init)) by {
            assert forall|k: int| 0 <= k < init.len() - 1 implies content(#[trigger] init[k])
                != content(init[k + 1]) by {
                assert(init[k] == ts[k]);
                assert(init[k + 1] == ts[k + 1]);
            }
        }
        lemma_collapse_distinct(init);
        if init.len() > 0 {
            assert(ts[ts.len() - 2] == init.last());
        }
        assert(collapse(ts) =~= ts.map_values(|t: Seq<u8>| (t, 1nat)));
    }
}

/// Without counts, runs of one terminated line each come out as those lines.
pub proof fn lemma_runs_text_single(ts: Seq<Seq<u8>>)
    requires
        forall|k: int| 0 <= k < ts.len() ==> is_line(#[trigger] ts[k]) && ts[k].last() == NEWLINE,
    ensures
        runs_text(ts.map_values(|t: Seq<u8>| (t, 1nat)), false) == join_lines(ts),
    decreases ts.len(),
{
    let rs = ts.map_values(|t: Seq<u8>| (t, 1nat));
    if ts.len() > 0 {
        let init = ts.drop_last();
        assert forall|k: int| 0 <= k < init.len() implies is_line(#[trigger] init[k])
            && init[k].last() == NEWLINE by {
            assert(init[k] == ts[k]);
        }
        lemma_runs_text_single(init);
        assert(rs.drop_last() =~= init.map_values(|t: Seq<u8>| (t, 1nat)));
        assert(is_line(ts[ts.len() - 1]));
        lemma_terminated(ts.last());
        assert(run_text(rs.last(), false) =~= ts.last());
    }
}

/// Collapsing is idempotent: without counts, collapsing its own output
/// gives that output again.
pub proof fn lemma_collapse_idempotent(b: Seq<u8>)
    ensures
        uniq_text(uniq_text(b, false), false) == uniq_text(b, false),
{
    let ls = lines_of(b);
    lemma_lines_are_lines(b, 0);
    lemma_collapse_shape(ls);
    let c = collapse(ls);
    let ts = run_lines(c);
    assert forall|k: int| 0 <= k < ts.len() implies is_line(#[trigger] ts[k]) && ts[k].last()
        == NEWLINE by {
        lemma_terminated(c[k].0);
    }
    lemma_runs_text_plain(c);
    let out = uniq_text(b, false);
    assert(out == join_lines(ts));
    lemma_lines_of_join(ts);
    lemma_collapse_distinct(ts);
    lemma_runs_text_single(ts);
}

} // verus!
