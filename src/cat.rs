//! Annotation of lines: end markers, visible tabs and line numbers.
use vstd::prelude::*;
use crate::lines::{content, find_line_end, lemma_line_end, line_end, NEWLINE};
use crate::text::{padded, push_padded};

verus! {

/// The horizontal tab.
pub const TAB: u8 = 9;

/// The end-of-line marker `$`.
pub const END_MARK: u8 = 36;

/// The files to annotate, and which annotations apply.
pub struct Config {
    pub files: Vec<String>,
    pub number_lines: bool,
    pub number_nonblank_lines: bool,
    pub show_ends: bool,
    pub show_nonprinting: bool,
    pub show_tabs: bool,
}

/// `s` with every tab written as `^I`.
pub open spec fn tabs_shown(s: Seq<u8>) -> Seq<u8>
    decreases s.len(),
{
    if s.len() == 0 {
        seq![]
    } else {
        tabs_shown(s.drop_last()) + if s.last() == TAB {
            seq![94u8, 73u8]
        } else {
            seq![s.last()]
        }
    }
}

/// The terminator of `l`: its last byte when that is a newline, else nothing.
pub open spec fn terminator(l: Seq<u8>) -> Seq<u8> {
    l.subrange(content(l).len() as int, l.len() as int)
}

/// A line's text after the end marker and the tab escapes, with its own terminator.
pub open spec fn body(l: Seq<u8>, c: &Config) -> Seq<u8> {
    let t = content(l) + if c.show_ends {
        seq![END_MARK]
    } else {
        seq![]
    };
    (if c.show_tabs {
        tabs_shown(t)
    } else {
        t
    }) + terminator(l)
}

/// Whether the line `l` gets a number.
pub open spec fn numbered(l: Seq<u8>, c: &Config) -> bool {
    c.number_lines || (c.number_nonblank_lines && content(l).len() > 0)
}

/// The output for line `l` when `num` lines were numbered before it.
pub open spec fn line_out(l: Seq<u8>, c: &Config, num: nat) -> Seq<u8> {
    (if numbered(l, c) {
        padded(num + 1, 6) + seq![TAB]
    } else {
        seq![]
    }) + body(l, c)
}

/// The output for the lines of `b` from position `i` on, when `num` lines
/// were numbered before them.
pub open spec fn annotated_from(b: Seq<u8>, i: int, c: &Config, num: nat) -> Seq<u8>
    decreases b.len() - i,
{
    if i < 0 || i >= b.len() {
        seq![]
    } else {
        let j = line_end(b, i);
        if j <= i || j > b.len() {
            seq![]
        } else {
            let l = b.subrange(i, j);
            line_out(l, c, num) + annotated_from(b, j, c, num + if numbered(l, c) {
                1nat
            } else {
                0nat
            })
        }
    }
}

/// Number of lines of `b` from position `i` on that get a number.
pub open spec fn numbered_from(b: Seq<u8>, i: int, c: &Config) -> nat
    decreases b.len() - i,
{
    if i < 0 || i >= b.len() {
        0
    } else {
        let j = line_end(b, i);
        if j <= i || j > b.len() {
            0
        } else {
            numbered_from(b, j, c) + if numbered(b.subrange(i, j), c) {
                1nat
            } else {
                0nat
            }
        }
    }
}

pub proof fn lemma_numbered_bound(b: Seq<u8>, i: int, c: &Config)
    requires
        0 <= i <= b.len(),
    ensures
        numbered_from(b, i, c) <= b.len() - i,
    decreases b.len() - i,
{
    if i < b.len() {
        lemma_line_end(b, i);
        lemma_numbered_bound(b, line_end(b, i), c);
    }
}

/// Appends the line `b[s..e]` as `c` shows it, without a number.
fn push_body(out: &mut Vec<u8>, b: &[u8], s: usize, e: usize, c: &Config)
    requires
        s < e <= b@.len(),
    ensures
        final(out)@ == old(out)@ + body(b@.subrange(s as int, e as int), c),
{
    let ghost l = b@.subrange(s as int, e as int);
    let ghost start = out@;
    let ce: usize = if b[e - 1] == NEWLINE {
        e - 1
    } else {
        e
    };
    proof {
        if b[e - 1] == NEWLINE {
            assert(l.drop_last() =~= b@.subrange(s as int, ce as int));
        }
        assert(content(l) =~= b@.subrange(s as int, ce as int));
    }
    let ghost t = content(l) + if c.show_ends {
        seq![END_MARK]
    } else {
        seq![]
    };
    let mut k: usize = s;
    while k < ce
        invariant
            s <= k <= ce <= e <= b@.len(),
            content(l) == b@.subrange(s as int, ce as int),
            out@ == start + if c.show_tabs {
                tabs_shown(b@.subrange(s as int, k as int))
            } else {
                b@.subrange(s as int, k as int)
            },
        decreases ce - k,
    {
        proof {
            assert(b@.subrange(s as int, k + 1).drop_last() =~= b@.subrange(s as int, k as int));
        }
        if c.show_tabs && b[k] == TAB {
            out.push(94);
            out.push(73);
        } else {
            out.push(b[k]);
        }
        proof {
            if c.show_tabs {
                assert(out@ =~= start + tabs_shown(b@.subrange(s as int, k + 1)));
            } else {
                assert(out@ =~= start + b@.subrange(s as int, k + 1));
            }
        }
        k = k + 1;
    }
    if c.show_ends {
        out.push(END_MARK);
        proof {
            if c.show_tabs {
                assert(t.drop_last() =~= content(l));
                assert(out@ =~= start + tabs_shown(t));
            } else {
                assert(out@ =~= start + t);
            }
        }
    } else {
        proof {
            assert(t =~= content(l));
        }
    }
    if ce < e {
        out.push(NEWLINE);
    }
    proof {
        assert(terminator(l) =~= b@.subrange(ce as int, e as int));
        assert(out@ =~= start + body(l, c));
    }
}

/// Annotates the lines of `data` as `config` asks. `line_num` counts the
/// lines numbered so far, in this and in earlier files.
pub fn annotate(data: &[u8], config: &Config, line_num: &mut usize) -> (r: Vec<u8>)
    requires
        *old(line_num) + data@.len() <= usize::MAX,
    ensures
        r@ == annotated_from(data@, 0, config, *old(line_num) as nat),
        *final(line_num) == *old(line_num) + numbered_from(data@, 0, config),
{
    let ghost b = data@;
    let ghost n0 = *line_num as nat;
    let mut out: Vec<u8> = Vec::new();
    let mut pos: usize = 0;
    proof {
        lemma_numbered_bound(b, 0, config);
    }
    while pos < data.len()
        invariant
            b == data@,
            pos <= b.len(),
            out@ + annotated_from(b, pos as int, config, *line_num as nat) == annotated_from(
                b,
                0,
                config,
                n0,
            ),
            *line_num + numbered_from(b, pos as int, config) == n0 + numbered_from(b, 0, config),
            n0 + numbered_from(b, 0, config) <= usize::MAX,
        decreases b.len() - pos,
    {
        let end = find_line_end(data, pos);
        proof {
            lemma_line_end(b, pos as int);
        }
        let ghost l = b.subrange(pos as int, end as int);
        let ghost before = out@;
        let ghost num = *line_num as nat;
        let ce: usize = if data[end - 1] == NEWLINE {
            end - 1
        } else {
            end
        };
        proof {
            if data[end - 1] == NEWLINE {
                assert(l.drop_last() =~= b.subrange(pos as int, ce as int));
            }
            assert(content(l).len() == ce - pos);
        }
        if config.number_lines || (config.number_nonblank_lines && ce > pos) {
            *line_num = *line_num + 1;
            push_padded(&mut out, *line_num, 6);
            out.push(TAB);
        }
        push_body(&mut out, data, pos, end, config);
        proof {
            assert(out@ =~= before + line_out(l, config, num));
            assert(before + annotated_from(b, pos as int, config, num) =~= out@ + annotated_from(
                b,
                end as int,
                config,
                *line_num as nat,
            ));
        }
        pos = end;
    }
    out
}

/// With no annotation asked for, the lines of `b` from position `i` on come
/// out exactly as they went in.
pub proof fn lemma_plain_round_trip(b: Seq<u8>, i: int, c: &Config, num: nat)
    requires
        0 <= i <= b.len(),
        !c.number_lines,
        !c.number_nonblank_lines,
        !c.show_ends,
        !c.show_tabs,
    ensures
        annotated_from(b, i, c, num) == b.subrange(i, b.len() as int),
    decreases b.len() - i,
{
    if i < b.len() {
        lemma_line_end(b, i);
        let j = line_end(b, i);
        lemma_plain_round_trip(b, j, c, num);
        let l = b.subrange(i, j);
        assert(content(l) + seq![] =~= content(l));
        assert(content(l) + terminator(l) =~= l);
        assert(b.subrange(i, b.len() as int) =~= l + b.subrange(j, b.len() as int));
    } else {
        assert(b.subrange(i, b.len() as int) =~= seq![]);
    }
}

} // verus!
