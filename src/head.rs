//! Extraction of the first lines or the first bytes of a stream.
use vstd::prelude::*;
use vstd::string::StringSliceAdditionalSpecFns;
use crate::lines::{find_line_end, lemma_line_end, line_end, lines_from, lines_of, NEWLINE};
use crate::text::{push_all, SPACE};

verus! {

/// The files to read, and how much of each: `bytes` bytes when given, else
/// `lines` lines.
pub struct Config {
    pub files: Vec<String>,
    pub lines: u64,
    pub bytes: Option<u64>,
}

/// A bound of zero lines or zero bytes.
#[derive(Debug, PartialEq, Eq, Structural)]
pub enum ConfigError {
    ZeroLines,
    ZeroBytes,
}

/// Number of lines taken when no bound is given.
pub const DEFAULT_LINES: u64 = 10;

impl Config {
    /// A configuration that takes `lines` lines, or `bytes` bytes when given;
    /// a bound of zero is refused.
    pub fn new(files: Vec<String>, lines: u64, bytes: Option<u64>) -> (r: Result<Config, ConfigError>)
        ensures
            r is Err <==> (lines == 0 || bytes == Some(0u64)),
            r matches Ok(c) ==> c.files@ == files@ && c.lines == lines && c.bytes == bytes,
            r matches Err(e) ==> (e == ConfigError::ZeroBytes <==> bytes == Some(0u64)),
    {
        if bytes == Some(0u64) {
            Err(ConfigError::ZeroBytes)
        } else if lines == 0 {
            Err(ConfigError::ZeroLines)
        } else {
            Ok(Config { files, lines, bytes })
        }
    }
}

/// End of the first `n` lines of `b` that start at `i`, or of `b` when it
/// holds fewer.
pub open spec fn lines_end(b: Seq<u8>, i: int, n: nat) -> int
    decreases n,
{
    if n == 0 || i < 0 || i >= b.len() {
        i
    } else {
        lines_end(b, line_end(b, i), (n - 1) as nat)
    }
}

/// The first `n` lines of `b`, with their terminators.
pub open spec fn first_lines(b: Seq<u8>, n: nat) -> Seq<u8> {
    b.subrange(0, lines_end(b, 0, n))
}

/// The first `n` bytes of `b`, or all of them when it holds fewer.
pub open spec fn first_bytes(b: Seq<u8>, n: nat) -> Seq<u8> {
    if n < b.len() {
        b.subrange(0, n as int)
    } else {
        b
    }
}

pub proof fn lemma_lines_end(b: Seq<u8>, i: int, n: nat)
    requires
        0 <= i <= b.len(),
    ensures
        i <= lines_end(b, i, n) <= b.len(),
        n >= lines_from(b, i).len() ==> lines_end(b, i, n) == b.len(),
    decreases n,
{
    if !(n == 0 || i >= b.len()) {
        lemma_line_end(b, i);
        lemma_lines_end(b, line_end(b, i), (n - 1) as nat);
    } else if i < b.len() {
        lemma_line_end(b, i);
    }
}

/// The first `n` lines of `data`, verbatim; all of it when it holds at most
/// `n` lines.
pub fn take_lines(data: &[u8], n: u64) -> (r: Vec<u8>)
    ensures
        r@ == first_lines(data@, n as nat),
        n >= lines_of(data@).len() ==> r@ == data@,
{
    let ghost b = data@;
    let mut pos: usize = 0;
    let mut k: u64 = 0;
    while k < n && pos < data.len()
        invariant
            b == data@,
            k <= n,
            pos <= b.len(),
            lines_end(b, pos as int, (n - k) as nat) == lines_end(b, 0, n as nat),
        decreases n - k,
    {
        pos = find_line_end(data, pos);
        k = k + 1;
    }
    let mut out: Vec<u8> = Vec::new();
    let (prefix, _) = data.split_at(pos);
    push_all(&mut out, prefix);
    proof {
        lemma_lines_end(b, 0, n as nat);
        assert(out@ =~= first_lines(b, n as nat));
        assert(b.subrange(0, b.len() as int) =~= b);
    }
    out
}

/// The first `n` bytes of `data`; all of it when it holds at most `n` bytes.
pub fn take_bytes(data: &[u8], n: u64) -> (r: Vec<u8>)
    ensures
        r@ == first_bytes(data@, n as nat),
        n >= data@.len() ==> r@ == data@,
{
    let end: usize = if n < data.len() as u64 {
        n as usize
    } else {
        data.len()
    };
    let mut out: Vec<u8> = Vec::new();
    let (prefix, _) = data.split_at(end);
    push_all(&mut out, prefix);
    proof {
        assert(out@ =~= first_bytes(data@, n as nat));
    }
    out
}

/// What is taken of one file's data: its first bytes in byte mode, else its
/// first lines.
pub open spec fn head_of(c: &Config, b: Seq<u8>) -> Seq<u8> {
    match c.bytes {
        Some(n) => first_bytes(b, n as nat),
        None => first_lines(b, c.lines as nat),
    }
}

/// The header that precedes a file's output when there are several files.
pub open spec fn header_text(name: &str, first: bool) -> Seq<u8> {
    (if first {
        seq![]
    } else {
        seq![NEWLINE]
    }) + seq![61u8, 61u8, 62u8, SPACE] + name.spec_bytes() + seq![SPACE, 60u8, 61u8, 61u8, NEWLINE]
}

/// The output for the file `name`, the one at `index` of `n_files`, whose
/// data is `data`: a header first when there are several files, a blank
/// line before every header but the first.
pub fn head_file(name: &str, index: usize, n_files: usize, data: &[u8], config: &Config) -> (r:
    Vec<u8>)
    ensures
        r@ == (if n_files > 1 {
            header_text(name, index == 0)
        } else {
            seq![]
        }) + head_of(config, data@),
{
    let mut out: Vec<u8> = Vec::new();
    if n_files > 1 {
        if index > 0 {
            out.push(NEWLINE);
        }
        // "==> ", the name, " <==" and a newline
        out.push(61);
        out.push(61);
        out.push(62);
        out.push(SPACE);
        push_all(&mut out, name.as_bytes());
        out.push(SPACE);
        out.push(60);
        out.push(61);
        out.push(61);
        out.push(NEWLINE);
    }
    let ghost before = out@;
    let body = match config.bytes {
        Some(n) => take_bytes(data, n),
        None => take_lines(data, config.lines),
    };
    push_all(&mut out, body.as_slice());
    proof {
        if n_files > 1 {
            assert(before =~= header_text(name, index == 0));
        } else {
            assert(before =~= seq![]);
        }
    }
    out
}

} // verus!
