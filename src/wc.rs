//! Counting of lines, words, bytes and characters, and the report of a run.
use vstd::prelude::*;
use vstd::string::StringSliceAdditionalSpecFns;
use crate::decode::{count_words, decode_lossy, lossy_of, words};
use crate::lines::{
    find_line_end, join_terminated, lemma_join_terminated, lemma_line_end,
    lemma_lines_concat, lemma_lines_of_line, line_end, lines_from, sum_lines_from, NEWLINE,
};
use crate::text::{decimal, digits, padded, push_all, push_decimal, push_padded, SPACE};

verus! {

/// Which counts a run reports, and of which files.
pub struct Config {
    pub files: Vec<String>,
    pub lines: bool,
    pub words: bool,
    pub bytes: bool,
    pub chars: bool,
}

impl Config {
    /// A configuration with the chosen counts; choosing none reports lines,
    /// words and bytes.
    pub fn new(files: Vec<String>, lines: bool, words: bool, bytes: bool, chars: bool) -> (r:
        Config)
        ensures
            r.files@ == files@,
            (lines || words || bytes || chars) ==> (r.lines == lines && r.words == words
                && r.bytes == bytes && r.chars == chars),
            !(lines || words || bytes || chars) ==> (r.lines && r.words && r.bytes && !r.chars),
    {
        if lines || words || bytes || chars {
            Config { files, lines, words, bytes, chars }
        } else {
            Config { files, lines: true, words: true, bytes: true, chars: false }
        }
    }
}

/// A count that does not fit in a machine word.
#[derive(Debug, PartialEq, Eq, Structural)]
pub enum CountError {
    Overflow,
}

/// Number of lines of `b` from position `i` on.
pub open spec fn lines_total_from(b: Seq<u8>, i: int) -> nat {
    sum_lines_from(b, i, |l: Seq<u8>| 1nat)
}

/// Number of words of `b` from position `i` on, each line decoded permissively.
pub open spec fn words_total_from(b: Seq<u8>, i: int) -> nat {
    sum_lines_from(b, i, |l: Seq<u8>| words(lossy_of(l)))
}

/// Number of characters of `b` from position `i` on, each line decoded permissively.
pub open spec fn chars_total_from(b: Seq<u8>, i: int) -> nat {
    sum_lines_from(b, i, |l: Seq<u8>| lossy_of(l).len())
}

pub open spec fn line_count(b: Seq<u8>) -> nat {
    lines_total_from(b, 0)
}

pub open spec fn word_count(b: Seq<u8>) -> nat {
    words_total_from(b, 0)
}

pub open spec fn char_count(b: Seq<u8>) -> nat {
    chars_total_from(b, 0)
}

/// The counts that `c` selects, in the order lines, words, bytes, characters.
pub open spec fn selected(c: &Config, lines: int, words: int, bytes: int, chars: int) -> Seq<int> {
    (if c.lines { seq![lines] } else { seq![] }) + (if c.words { seq![words] } else { seq![] })
        + (if c.bytes { seq![bytes] } else { seq![] }) + (if c.chars { seq![chars] } else { seq![] })
}

/// The counts of `b` that `c` selects.
pub open spec fn counts_of(c: &Config, b: Seq<u8>) -> Seq<int> {
    selected(c, line_count(b) as int, word_count(b) as int, b.len() as int, char_count(b) as int)
}

pub open spec fn as_ints(v: Seq<usize>) -> Seq<int> {
    v.map_values(|x: usize| x as int)
}

/// Counts the data of one file. The result holds the file's name, the counts
/// that `config` selects, and the width of its byte count in decimal.
pub fn count<'a>(data: &[u8], filename: &'a str, config: &Config) -> (r: Result<
    (&'a str, Vec<usize>, usize),
    CountError,
>)
    ensures
        r is Ok <==> (word_count(data@) <= usize::MAX && char_count(data@) <= usize::MAX),
        r matches Ok(v) ==> v.0 == filename && as_ints(v.1@) == counts_of(config, data@) && v.2
            == digits(data@.len() as nat),
        r matches Err(e) ==> e == CountError::Overflow,
{
    let ghost b = data@;
    let mut num_lines: usize = 0;
    let mut num_words: usize = 0;
    let mut num_chars: usize = 0;
    let mut pos: usize = 0;
    while pos < data.len()
        invariant
            b == data@,
            pos <= b.len(),
            num_lines <= pos,
            num_lines + lines_total_from(b, pos as int) == line_count(b),
            num_words + words_total_from(b, pos as int) == word_count(b),
            num_chars + chars_total_from(b, pos as int) == char_count(b),
        decreases b.len() - pos,
    {
        let end = find_line_end(data, pos);
        proof {
            lemma_line_end(b, pos as int);
        }
        let line = slice_range(data, pos, end);
        let text = decode_lossy(line);
        let w = count_words(&text);
        match num_words.checked_add(w) {
            Some(n) => {
                num_words = n;
            },
            None => {
                return Err(CountError::Overflow);
            },
        }
        match num_chars.checked_add(text.len()) {
            Some(n) => {
                num_chars = n;
            },
            None => {
                proof {
                    assert(words_total_from(b, pos as int) >= w);
                }
                return Err(CountError::Overflow);
            },
        }
        num_lines = num_lines + 1;
        pos = end;
    }
    let mut counts: Vec<usize> = Vec::new();
    if config.lines {
        counts.push(num_lines);
    }
    if config.words {
        counts.push(num_words);
    }
    if config.bytes {
        counts.push(data.len());
    }
    if config.chars {
        counts.push(num_chars);
    }
    proof {
        assert(as_ints(counts@) =~= counts_of(config, b));
    }
    Ok((filename, counts, count_digits(data.len())))
}

/// The bytes of `b` from `start` up to `end`.
fn slice_range(b: &[u8], start: usize, end: usize) -> (r: &[u8])
    requires
        start <= end <= b@.len(),
    ensures
        r@ == b@.subrange(start as int, end as int),
{
    let (head, _) = b.split_at(end);
    let (_, mid) = head.split_at(start);
    proof {
        assert(mid@ =~= b@.subrange(start as int, end as int));
    }
    mid
}

/// Number of decimal digits of `n`: the width of its column.
pub fn count_digits(n: usize) -> (r: usize)
    ensures
        r == digits(n as nat),
{
    crate::text::count_digits(n)
}

/// Sum of column `j` over the count rows of `rs`.
pub open spec fn col_sum<'a>(rs: Seq<(&'a str, Vec<usize>, usize)>, j: int) -> int
    decreases rs.len(),
{
    if rs.len() == 0 {
        0
    } else {
        col_sum(rs.drop_last(), j) + rs.last().1@[j]
    }
}

/// Every row of `rs` holds as many counts as the first.
pub open spec fn uniform<'a>(rs: Seq<(&'a str, Vec<usize>, usize)>) -> bool {
    forall|i: int| 0 <= i < rs.len() ==> #[trigger] rs[i].1@.len() == rs[0].1@.len()
}

/// Number of counts in each row of `rs`.
pub open spec fn n_cols<'a>(rs: Seq<(&'a str, Vec<usize>, usize)>) -> int {
    if rs.len() == 0 {
        0
    } else {
        rs[0].1@.len() as int
    }
}

/// The element-wise sums of the rows of `rs`.
pub open spec fn totals_of<'a>(rs: Seq<(&'a str, Vec<usize>, usize)>) -> Seq<int> {
    Seq::new(n_cols(rs) as nat, |j: int| col_sum(rs, j))
}

/// Every column sum of `rs` fits in a machine word.
pub open spec fn totals_fit<'a>(rs: Seq<(&'a str, Vec<usize>, usize)>) -> bool {
    forall|j: int| 0 <= j < n_cols(rs) ==> #[trigger] col_sum(rs, j) <= usize::MAX
}

/// The shared column width: the widest byte count among the rows (zero for none).
pub open spec fn col_width<'a>(rs: Seq<(&'a str, Vec<usize>, usize)>) -> nat
    decreases rs.len(),
{
    if rs.len() == 0 {
        0
    } else {
        let w = col_width(rs.drop_last());
        if rs.last().2 > w {
            rs.last().2 as nat
        } else {
            w
        }
    }
}

/// The numbers of `cs`, each right-aligned to width `w`, separated by spaces.
pub open spec fn joined(cs: Seq<int>, w: nat) -> Seq<u8>
    decreases cs.len(),
{
    if cs.len() == 0 {
        seq![]
    } else if cs.len() == 1 {
        padded(cs[0] as nat, w)
    } else {
        joined(cs.drop_last(), w) + seq![SPACE] + padded(cs.last() as nat, w)
    }
}

/// What follows the numbers of a row: a newline for standard input, else
/// a space, the file's name and a newline.
pub open spec fn name_suffix(name: &str) -> Seq<u8> {
    if name.spec_bytes() == seq![45u8] {
        seq![NEWLINE]
    } else {
        seq![SPACE] + name.spec_bytes() + seq![NEWLINE]
    }
}

/// One file's row: a lone count of a lone file stands bare, else every count
/// is aligned to width `w`.
pub open spec fn row_text<'a>(r: (&'a str, Vec<usize>, usize), w: nat, n_files: nat) -> Seq<u8> {
    (if n_files == 1 && r.1@.len() == 1 {
        decimal(r.1@[0] as nat)
    } else {
        joined(as_ints(r.1@), w)
    }) + name_suffix(r.0)
}

pub open spec fn rows_text<'a>(rs: Seq<(&'a str, Vec<usize>, usize)>, w: nat, n_files: nat) -> Seq<u8>
    decreases rs.len(),
{
    if rs.len() == 0 {
        seq![]
    } else {
        rows_text(rs.drop_last(), w, n_files) + row_text(rs.last(), w, n_files)
    }
}

/// The text " total" and a newline.
pub open spec fn total_label() -> Seq<u8> {
    seq![32u8, 116u8, 111u8, 116u8, 97u8, 108u8, 10u8]
}

/// The report of a run over `n_files` files, of which `rs` were counted: a
/// row per counted file, then, for more than one file, the row of totals.
pub open spec fn report_text<'a>(rs: Seq<(&'a str, Vec<usize>, usize)>, n_files: nat) -> Seq<u8> {
    rows_text(rs, col_width(rs), n_files) + if n_files > 1 {
        joined(totals_of(rs), col_width(rs)) + total_label()
    } else {
        seq![]
    }
}

/// A column sum over the first rows is at most the sum over all of them.
pub proof fn lemma_col_sum_prefix<'a>(rs: Seq<(&'a str, Vec<usize>, usize)>, i: int, j: int)
    requires
        0 <= i <= rs.len(),
    ensures
        col_sum(rs.subrange(0, i), j) <= col_sum(rs, j),
    decreases rs.len(),
{
    if i < rs.len() {
        lemma_col_sum_prefix(rs.drop_last(), i, j);
        assert(rs.drop_last().subrange(0, i) =~= rs.subrange(0, i));
    } else {
        assert(rs.subrange(0, i) =~= rs);
    }
}

/// The sums of the rows of a run, column by column; `None` when one of them
/// does not fit in a machine word.
pub fn totals(results: &[(&str, Vec<usize>, usize)]) -> (r: Option<Vec<usize>>)
    requires
        uniform(results@),
    ensures
        r is Some <==> totals_fit(results@),
        r matches Some(t) ==> as_ints(t@) == totals_of(results@),
{
    let ghost rs = results@;
    let mut sums: Vec<usize> = Vec::new();
    if results.len() == 0 {
        proof {
            assert(as_ints(sums@) =~= totals_of(rs));
        }
        return Some(sums);
    }
    let ncols = results[0].1.len();
    let mut j: usize = 0;
    while j < ncols
        invariant
            rs == results@,
            rs.len() > 0,
            uniform(rs),
            ncols == n_cols(rs),
            j <= ncols,
            sums@.len() == j,
            forall|k: int| 0 <= k < j ==> #[trigger] sums@[k] == col_sum(rs, k),
        decreases ncols - j,
    {
        let mut acc: usize = 0;
        let mut i: usize = 0;
        while i < results.len()
            invariant
                rs == results@,
                uniform(rs),
                ncols == n_cols(rs),
                j < ncols,
                i <= rs.len(),
                acc == col_sum(rs.subrange(0, i as int), j as int),
            decreases rs.len() - i,
        {
            let ghost pre = rs.subrange(0, i + 1);
            proof {
                assert(pre.drop_last() =~= rs.subrange(0, i as int));
                assert(rs[i as int].1@.len() == rs[0].1@.len());
            }
            match acc.checked_add(results[i].1[j]) {
                Some(n) => {
                    acc = n;
                },
                None => {
                    proof {
                        lemma_col_sum_prefix(rs, i + 1, j as int);
                        assert(!(col_sum(rs, j as int) <= usize::MAX));
                    }
                    return None;
                },
            }
            i = i + 1;
        }
        proof {
            assert(rs.subrange(0, i as int) =~= rs);
        }
        sums.push(acc);
        j = j + 1;
    }
    proof {
        assert(as_ints(sums@) =~= totals_of(rs));
        assert forall|k: int| 0 <= k < n_cols(rs) implies #[trigger] col_sum(rs, k) <= usize::MAX by {
            assert(sums@[k] == col_sum(rs, k));
        }
    }
    Some(sums)
}

/// Appends the numbers of `cs`, each right-aligned to width `w`, separated by spaces.
fn push_joined(out: &mut Vec<u8>, cs: &Vec<usize>, w: usize)
    ensures
        final(out)@ == old(out)@ + joined(as_ints(cs@), w as nat),
{
    let ghost start = out@;
    let mut k: usize = 0;
    while k < cs.len()
        invariant
            k <= cs@.len(),
            out@ == start + joined(as_ints(cs@.subrange(0, k as int)), w as nat),
        decreases cs@.len() - k,
    {
        proof {
            assert(as_ints(cs@.subrange(0, k + 1)).drop_last() =~= as_ints(
                cs@.subrange(0, k as int),
            ));
        }
        if k > 0 {
            out.push(SPACE);
        }
        push_padded(out, cs[k], w);
        proof {
            let s = as_ints(cs@.subrange(0, k + 1));
            if k == 0 {
                assert(joined(as_ints(cs@.subrange(0, 0)), w as nat) =~= seq![]);
                assert(out@ =~= start + joined(s, w as nat));
            } else {
                assert(out@ =~= start + joined(s, w as nat));
            }
        }
        k = k + 1;
    }
    proof {
        assert(cs@.subrange(0, k as int) =~= cs@);
    }
}

/// The report of a run over `n_files` files, of which `results` were
/// counted. It fails only when, for more than one file, a total does not
/// fit in a machine word.
pub fn report(results: &[(&str, Vec<usize>, usize)], n_files: usize) -> (r: Result<
    Vec<u8>,
    CountError,
>)
    requires
        uniform(results@),
    ensures
        r is Ok <==> (n_files <= 1 || totals_fit(results@)),
        r matches Ok(t) ==> t@ == report_text(results@, n_files as nat),
        r matches Err(e) ==> e == CountError::Overflow,
{
    let ghost rs = results@;
    let mut w: usize = 0;
    let mut i: usize = 0;
    while i < results.len()
        invariant
            rs == results@,
            i <= rs.len(),
            w == col_width(rs.subrange(0, i as int)),
        decreases rs.len() - i,
    {
        proof {
            assert(rs.subrange(0, i + 1).drop_last() =~= rs.subrange(0, i as int));
        }
        if results[i].2 > w {
            w = results[i].2;
        }
        i = i + 1;
    }
    proof {
        assert(rs.subrange(0, i as int) =~= rs);
    }
    let mut out: Vec<u8> = Vec::new();
    let mut i: usize = 0;
    while i < results.len()
        invariant
            rs == results@,
            i <= rs.len(),
            w == col_width(rs),
            out@ == rows_text(rs.subrange(0, i as int), w as nat, n_files as nat),
        decreases rs.len() - i,
    {
        let ghost before = out@;
        proof {
            assert(rs.subrange(0, i + 1).drop_last() =~= rs.subrange(0, i as int));
        }
        let counts = &results[i].1;
        if n_files == 1 && counts.len() == 1 {
            push_decimal(&mut out, counts[0]);
        } else {
            push_joined(&mut out, counts, w);
        }
        let name = results[i].0.as_bytes();
        if name.len() == 1 && name[0] == 45 {
            out.push(NEWLINE);
            proof {
                assert(name@ =~= seq![45u8]);
            }
        } else {
            out.push(SPACE);
            push_all(&mut out, name);
            out.push(NEWLINE);
            proof {
                if name@ == seq![45u8] {
                    assert(name@.len() == 1);
                }
            }
        }
        proof {
            assert(out@ =~= before + row_text(rs[i as int], w as nat, n_files as nat));
            assert(rs.subrange(0, i + 1).last() == rs[i as int]);
        }
        i = i + 1;
    }
    proof {
        assert(rs.subrange(0, i as int) =~= rs);
    }
    if n_files > 1 {
        match totals(results) {
            Some(t) => {
                push_joined(&mut out, &t, w);
                // " total" and a newline
                out.push(32);
                out.push(116);
                out.push(111);
                out.push(116);
                out.push(97);
                out.push(108);
                out.push(10);
                proof {
                    assert(out@ =~= report_text(rs, n_files as nat));
                }
            },
            None => {
                return Err(CountError::Overflow);
            },
        }
    } else {
        proof {
            assert(out@ =~= report_text(rs, n_files as nat));
        }
    }
    Ok(out)
}

/// Counting is additive across files: each column sum over two groups of
/// files taken together is the sum over the first group plus the sum over
/// the second.
pub proof fn lemma_totals_additive<'a>(
    a: Seq<(&'a str, Vec<usize>, usize)>,
    b: Seq<(&'a str, Vec<usize>, usize)>,
    j: int,
)
    ensures
        col_sum(a + b, j) == col_sum(a, j) + col_sum(b, j),
    decreases b.len(),
{
    if b.len() == 0 {
        assert(a + b =~= a);
    } else {
        lemma_totals_additive(a, b.drop_last(), j);
        assert((a + b).drop_last() =~= a + b.drop_last());
    }
}

/// The line count is the number of lines that the text splits into.
pub proof fn lemma_line_count_is_lines(b: Seq<u8>, i: int)
    requires
        0 <= i <= b.len(),
    ensures
        lines_total_from(b, i) == lines_from(b, i).len(),
    decreases b.len() - i,
{
    if i < b.len() {
        lemma_line_end(b, i);
        lemma_line_count_is_lines(b, line_end(b, i));
    }
}

/// Text of `ts.len()` lines, each ending with a newline, counts that many
/// lines; without its final newline it counts as many, when its last line
/// is not empty.
pub proof fn lemma_line_count_terminated(ts: Seq<Seq<u8>>)
    requires
        forall|k: int, m: int| 0 <= k < ts.len() && 0 <= m < ts[k].len() ==> #[trigger] ts[k][m]
            != NEWLINE,
    ensures
        line_count(join_terminated(ts)) == ts.len(),
        ts.len() > 0 && ts.last().len() > 0 ==> line_count(join_terminated(ts).drop_last())
            == ts.len(),
{
    let b = join_terminated(ts);
    lemma_join_terminated(ts);
    lemma_line_count_is_lines(b, 0);
    if ts.len() > 0 && ts.last().len() > 0 {
        let init = ts.drop_last();
        let x = join_terminated(init);
        let t = ts.last();
        assert forall|k: int, m: int| 0 <= k < init.len() && 0 <= m < init[k].len() implies #[trigger] init[k][m]
            != NEWLINE by {
            assert(init[k] == ts[k]);
        }
        lemma_join_terminated(init);
        assert(b.drop_last() =~= x + t);
        assert forall|k: int| 0 <= k < t.len() - 1 implies t[k] != NEWLINE by {
            assert(t[k] == ts[ts.len() - 1][k]);
        }
        lemma_lines_of_line(t);
        if init.len() > 0 {
            assert(x.last() == NEWLINE);
        }
        lemma_lines_concat(x, t, 0);
        lemma_line_count_is_lines(x + t, 0);
    }
}

} // verus!
