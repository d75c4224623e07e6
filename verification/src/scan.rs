//! What a scan of a project produces, and the parts of scanning that are
//! decisions rather than disk access: the per-line summary of a file, when a
//! file counts as binary, how git's file lists are read, and the small
//! `.gitignore` reader used outside git repositories.

use vstd::prelude::*;
use crate::text::{chars_of, split_chars, string_of, trim_bounds, trim_white};

verus! {

/// Files bigger than this are treated as binary blobs, not read line by line.
pub const MAX_TEXT_BYTES: u64 = 8 * 1024 * 1024;

/// When expanding an ignored folder, stop after this many files.
pub const MAX_EXPAND_FILES: usize = 200_000;

/// How far into a file a NUL byte marks it as binary.
pub const BINARY_PROBE: usize = 8000;

/// One line of source, squeezed into 3 bytes: all the minimap needs.
#[derive(Clone, Copy, Debug, PartialEq, Eq, Structural)]
pub struct Line {
    pub indent: u8,
    pub len: u8,
    pub comment: bool,
}

#[derive(Debug)]
pub enum EntryKind {
    Text { bytes: u64, lines: Vec<Line> },
    Binary { bytes: u64 },
    /// Ignored and not read. Shown collapsed until clicked.
    Unread { dir: bool },
}

#[derive(Debug)]
pub struct Entry {
    /// Relative to the project root, always '/' separated.
    pub path: String,
    pub kind: EntryKind,
    /// True for things found inside an ignored folder the user expanded.
    pub ignored: bool,
}

pub struct ProjectScan {
    pub entries: Vec<Entry>,
    pub used_git: bool,
}

/// An ignored entry that has not been read.
pub fn ghost(path: String, dir: bool) -> (res: Entry)
    ensures
        res.path@ == path@,
        res.kind == (EntryKind::Unread { dir }),
        res.ignored,
{
    Entry { path, kind: EntryKind::Unread { dir }, ignored: true }
}

// ---------------------------------------------------------------------------
// Line summaries

/// ASCII whitespace as `u8::is_ascii_whitespace` defines it.
pub open spec fn is_ascii_ws(b: u8) -> bool {
    b == 32 || b == 9 || b == 10 || b == 12 || b == 13
}

/// Indentation width of a line: a space counts 1, a tab 4, up to the first other byte.
pub open spec fn indent_of(raw: Seq<u8>) -> nat
    decreases raw.len(),
{
    if raw.len() == 0 {
        0
    } else if raw[0] == 32 {
        1 + indent_of(raw.drop_first())
    } else if raw[0] == 9 {
        4 + indent_of(raw.drop_first())
    } else {
        0
    }
}

/// Number of leading ASCII whitespace bytes.
pub open spec fn lead_ws(s: Seq<u8>) -> nat
    decreases s.len(),
{
    if s.len() == 0 || !is_ascii_ws(s[0]) {
        0
    } else {
        1 + lead_ws(s.drop_first())
    }
}

/// Number of trailing ASCII whitespace bytes.
pub open spec fn trail_ws(s: Seq<u8>) -> nat
    decreases s.len(),
{
    if s.len() == 0 || !is_ascii_ws(s.last()) {
        0
    } else {
        1 + trail_ws(s.drop_last())
    }
}

/// The line without ASCII whitespace at either end (`<[u8]>::trim_ascii`).
pub open spec fn trim_ascii(s: Seq<u8>) -> Seq<u8> {
    let rest = s.skip(lead_ws(s) as int);
    rest.take(rest.len() - trail_ws(rest))
}

pub open spec fn starts_with(s: Seq<u8>, p: Seq<u8>) -> bool {
    s.len() >= p.len() && s.take(p.len() as int) == p
}

/// A trimmed line is a comment when it starts with `//`, `#`, `;`, `--`, `/*`, `*` or `<!--`.
pub open spec fn is_comment(text: Seq<u8>) -> bool {
    ||| starts_with(text, seq![47u8, 47u8])
    ||| starts_with(text, seq![35u8])
    ||| starts_with(text, seq![59u8])
    ||| starts_with(text, seq![45u8, 45u8])
    ||| starts_with(text, seq![47u8, 42u8])
    ||| starts_with(text, seq![42u8])
    ||| starts_with(text, seq![60u8, 33u8, 45u8, 45u8])
}

/// A line counts as a comment exactly when its trimmed text starts with
/// `//`, `#`, `;`, `--`, `/*`, `*` or `<!--`; a single `-` or `/` does not
/// make one.
pub proof fn lemma_comment_prefixes(raw: Seq<u8>)
    ensures
        line_summary(raw).comment <==> ({
            let t = trim_ascii(raw);
            ||| t.len() >= 2 && t[0] == 47u8 && t[1] == 47u8
            ||| t.len() >= 1 && t[0] == 35u8
            ||| t.len() >= 1 && t[0] == 59u8
            ||| t.len() >= 2 && t[0] == 45u8 && t[1] == 45u8
            ||| t.len() >= 2 && t[0] == 47u8 && t[1] == 42u8
            ||| t.len() >= 1 && t[0] == 42u8
            ||| t.len() >= 4 && t[0] == 60u8 && t[1] == 33u8 && t[2] == 45u8 && t[3] == 45u8
        }),
{
    let t = trim_ascii(raw);
    if t.len() >= 1 {
        assert(t.take(1) =~= seq![t[0]]);
    }
    if t.len() >= 2 {
        assert(t.take(2) =~= seq![t[0], t[1]]);
    }
    if t.len() >= 4 {
        assert(t.take(4) =~= seq![t[0], t[1], t[2], t[3]]);
    }
    if starts_with(t, seq![47u8, 47u8]) || starts_with(t, seq![45u8, 45u8]) || starts_with(t, seq![47u8, 42u8]) {
        assert(t.take(2)[0] == t[0] && t.take(2)[1] == t[1]);
    }
    if starts_with(t, seq![35u8]) || starts_with(t, seq![59u8]) || starts_with(t, seq![42u8]) {
        assert(t.take(1)[0] == t[0]);
    }
    if starts_with(t, seq![60u8, 33u8, 45u8, 45u8]) {
        assert(t.take(4)[0] == t[0] && t.take(4)[1] == t[1] && t.take(4)[2] == t[2] && t.take(4)[3] == t[3]);
    }
}

pub open spec fn cap255(n: nat) -> u8 {
    if n > 255 {
        255u8
    } else {
        n as u8
    }
}

/// The summary of one line.
pub open spec fn line_summary(raw: Seq<u8>) -> Line {
    Line {
        indent: cap255(indent_of(raw)),
        len: cap255(trim_ascii(raw).len()),
        comment: is_comment(trim_ascii(raw)),
    }
}

/// Pieces of `s` between `sep` bytes (`<[u8]>::split`): one more piece than separators.
pub open spec fn split_on(s: Seq<u8>, sep: u8) -> Seq<Seq<u8>>
    decreases s.len(),
{
    if s.len() == 0 {
        seq![seq![]]
    } else {
        let prev = split_on(s.drop_last(), sep);
        if s.last() == sep {
            prev.push(seq![])
        } else {
            prev.update(prev.len() - 1, prev.last().push(s.last()))
        }
    }
}

proof fn lemma_split_on_nonempty(s: Seq<u8>, sep: u8)
    ensures
        split_on(s, sep).len() >= 1,
    decreases s.len(),
{
    if s.len() > 0 {
        lemma_split_on_nonempty(s.drop_last(), sep);
    }
}

/// The file without one final `\n`.
pub open spec fn line_body(data: Seq<u8>) -> Seq<u8> {
    if data.len() > 0 && data.last() == 10u8 {
        data.drop_last()
    } else {
        data
    }
}

/// Summaries of every line of a file; an empty file has no lines.
pub open spec fn lines_summary(data: Seq<u8>) -> Seq<Line> {
    let body = line_body(data);
    if body.len() == 0 {
        seq![]
    } else {
        split_on(body, 10u8).map_values(|raw: Seq<u8>| line_summary(raw))
    }
}

proof fn lemma_indent_step(raw: Seq<u8>, k: int)
    requires
        0 <= k < raw.len(),
        raw[k] == 32u8 || raw[k] == 9u8,
    ensures
        indent_of(raw.skip(k)) == (if raw[k] == 32u8 {
            1nat
        } else {
            4nat
        }) + indent_of(raw.skip(k + 1)),
{
    assert(raw.skip(k).drop_first() =~= raw.skip(k + 1));
}

proof fn lemma_lead_step(s: Seq<u8>, k: int)
    requires
        0 <= k < s.len(),
        is_ascii_ws(s[k]),
    ensures
        lead_ws(s.skip(k)) == 1 + lead_ws(s.skip(k + 1)),
{
    assert(s.skip(k).drop_first() =~= s.skip(k + 1));
}

proof fn lemma_trail_step(s: Seq<u8>, k: int)
    requires
        0 < k <= s.len(),
        is_ascii_ws(s[k - 1]),
    ensures
        trail_ws(s.take(k)) == 1 + trail_ws(s.take(k - 1)),
{
    assert(s.take(k).drop_last() =~= s.take(k - 1));
}

/// Summary of `data[start..end]`.
fn summarize_line(data: &[u8], start: usize, end: usize) -> (res: Line)
    requires
        start <= end <= data@.len(),
    ensures
        res == line_summary(data@.subrange(start as int, end as int)),
{
    let ghost raw = data@.subrange(start as int, end as int);
    // indentation
    let mut indent: usize = 0;
    let mut k = start;
    assert(raw.skip(0) =~= raw);
    while k < end
        invariant
            start <= k <= end <= data@.len(),
            raw == data@.subrange(start as int, end as int),
            indent < 255 + 4,
            indent_of(raw) == indent + indent_of(raw.skip(k - start)),
        ensures
            indent >= 255 ==> indent_of(raw) >= 255,
            indent < 255 ==> indent_of(raw) == indent,
        decreases end - k,
    {
        if indent >= 255 {
            break;
        }
        let b = data[k];
        proof {
            assert(raw[k - start] == b);
        }
        if b == 32 {
            proof {
                lemma_indent_step(raw, k - start);
            }
            indent = indent + 1;
        } else if b == 9 {
            proof {
                lemma_indent_step(raw, k - start);
            }
            indent = indent + 4;
        } else {
            proof {
                assert(indent_of(raw.skip(k - start)) == 0);
            }
            break;
        }
        k = k + 1;
    }
    proof {
        if k == end && indent < 255 {
            assert(raw.skip(k - start).len() == 0);
        }
    }
    let indent_byte: u8 = if indent >= 255 { 255 } else { indent as u8 };
    // trimming
    let mut lo = start;
    while lo < end
        invariant
            start <= lo <= end <= data@.len(),
            raw == data@.subrange(start as int, end as int),
            lead_ws(raw) == (lo - start) + lead_ws(raw.skip(lo - start)),
        ensures
            lead_ws(raw) == lo - start,
        decreases end - lo,
    {
        let b = data[lo];
        proof {
            assert(raw.skip(lo - start)[0] == b);
        }
        if !(b == 32 || b == 9 || b == 10 || b == 12 || b == 13) {
            break;
        }
        proof {
            lemma_lead_step(raw, lo - start);
        }
        lo = lo + 1;
    }
    let ghost rest = raw.skip(lo - start);
    assert(rest =~= data@.subrange(lo as int, end as int));
    let mut hi = end;
    assert(rest.take(end - lo) =~= rest);
    while hi > lo
        invariant
            start <= lo <= hi <= end <= data@.len(),
            rest == data@.subrange(lo as int, end as int),
            trail_ws(rest) == (end - hi) + trail_ws(rest.take(hi - lo)),
        ensures
            trail_ws(rest) == end - hi,
        decreases hi - lo,
    {
        let b = data[hi - 1];
        proof {
            assert(rest.take(hi - lo).last() == b);
        }
        if !(b == 32 || b == 9 || b == 10 || b == 12 || b == 13) {
            break;
        }
        proof {
            lemma_trail_step(rest, hi - lo);
        }
        hi = hi - 1;
    }
    let ghost text = trim_ascii(raw);
    assert(text =~= data@.subrange(lo as int, hi as int));
    let n = hi - lo;
    let len_byte: u8 = if n > 255 { 255 } else { n as u8 };
    // comment prefixes
    let b0: u8 = if n >= 1 { data[lo] } else { 0 };
    let b1: u8 = if n >= 2 { data[lo + 1] } else { 0 };
    let b2: u8 = if n >= 3 { data[lo + 2] } else { 0 };
    let b3: u8 = if n >= 4 { data[lo + 3] } else { 0 };
    let comment = (n >= 2 && b0 == 47 && b1 == 47) || (n >= 1 && b0 == 35) || (n >= 1 && b0 == 59)
        || (n >= 2 && b0 == 45 && b1 == 45) || (n >= 2 && b0 == 47 && b1 == 42) || (n >= 1 && b0
        == 42) || (n >= 4 && b0 == 60 && b1 == 33 && b2 == 45 && b3 == 45);
    proof {
        assert(n >= 1 ==> text[0] == b0);
        assert(n >= 2 ==> text[1] == b1);
        assert(n >= 3 ==> text[2] == b2);
        assert(n >= 4 ==> text[3] == b3);
        assert(starts_with(text, seq![47u8, 47u8]) <==> (n >= 2 && b0 == 47 && b1 == 47)) by {
            if n >= 2 && b0 == 47 && b1 == 47 {
                assert(text.take(2) =~= seq![47u8, 47u8]);
            }
            if starts_with(text, seq![47u8, 47u8]) {
                assert(text.take(2)[0] == text[0] && text.take(2)[1] == text[1]);
            }
        }
        assert(starts_with(text, seq![35u8]) <==> (n >= 1 && b0 == 35)) by {
            if n >= 1 && b0 == 35 {
                assert(text.take(1) =~= seq![35u8]);
            }
            if starts_with(text, seq![35u8]) {
                assert(text.take(1)[0] == text[0]);
            }
        }
        assert(starts_with(text, seq![59u8]) <==> (n >= 1 && b0 == 59)) by {
            if n >= 1 && b0 == 59 {
                assert(text.take(1) =~= seq![59u8]);
            }
            if starts_with(text, seq![59u8]) {
                assert(text.take(1)[0] == text[0]);
            }
        }
        assert(starts_with(text, seq![45u8, 45u8]) <==> (n >= 2 && b0 == 45 && b1 == 45)) by {
            if n >= 2 && b0 == 45 && b1 == 45 {
                assert(text.take(2) =~= seq![45u8, 45u8]);
            }
            if starts_with(text, seq![45u8, 45u8]) {
                assert(text.take(2)[0] == text[0] && text.take(2)[1] == text[1]);
            }
        }
        assert(starts_with(text, seq![47u8, 42u8]) <==> (n >= 2 && b0 == 47 && b1 == 42)) by {
            if n >= 2 && b0 == 47 && b1 == 42 {
                assert(text.take(2) =~= seq![47u8, 42u8]);
            }
            if starts_with(text, seq![47u8, 42u8]) {
                assert(text.take(2)[0] == text[0] && text.take(2)[1] == text[1]);
            }
        }
        assert(starts_with(text, seq![42u8]) <==> (n >= 1 && b0 == 42)) by {
            if n >= 1 && b0 == 42 {
                assert(text.take(1) =~= seq![42u8]);
            }
            if starts_with(text, seq![42u8]) {
                assert(text.take(1)[0] == text[0]);
            }
        }
        assert(starts_with(text, seq![60u8, 33u8, 45u8, 45u8]) <==> (n >= 4 && b0 == 60 && b1 == 33
            && b2 == 45 && b3 == 45)) by {
            if n >= 4 && b0 == 60 && b1 == 33 && b2 == 45 && b3 == 45 {
                assert(text.take(4) =~= seq![60u8, 33u8, 45u8, 45u8]);
            }
            if starts_with(text, seq![60u8, 33u8, 45u8, 45u8]) {
                assert(text.take(4)[0] == text[0] && text.take(4)[1] == text[1] && text.take(4)[2]
                    == text[2] && text.take(4)[3] == text[3]);
            }
        }
    }
    Line { indent: indent_byte, len: len_byte, comment }
}

/// One summary per line of `data`; a final newline does not start a line.
pub fn summarize_lines(data: &[u8]) -> (res: Vec<Line>)
    ensures
        res@ == lines_summary(data@),
{
    let n = data.len();
    let body_len = if n > 0 && data[n - 1] == 10 { n - 1 } else { n };
    let ghost body = line_body(data@);
    assert(body =~= data@.take(body_len as int));
    let mut out: Vec<Line> = Vec::new();
    if body_len == 0 {
        return out;
    }
    let ghost mut done: Seq<Seq<u8>> = seq![];
    let mut start: usize = 0;
    assert(body.take(0) =~= seq![]);
    assert(body.subrange(0, 0) =~= seq![]);
    let mut i: usize = 0;
    while i < body_len
        invariant
            0 <= start <= i <= body_len <= data@.len(),
            body == data@.take(body_len as int),
            split_on(body.take(i as int), 10u8) == done.push(body.subrange(start as int, i as int)),
            out@ == done.map_values(|raw: Seq<u8>| line_summary(raw)),
        decreases body_len - i,
    {
        let ghost before = body.take(i as int);
        assert(body.take(i + 1).drop_last() =~= before);
        if data[i] == 10 {
            let line = summarize_line(data, start, i);
            proof {
                assert(data@.subrange(start as int, i as int) =~= body.subrange(start as int, i as int));
                done = done.push(body.subrange(start as int, i as int));
                assert(body.subrange(i + 1, i + 1) =~= seq![]);
            }
            out.push(line);
            start = i + 1;
        } else {
            proof {
                assert(body.subrange(start as int, i + 1) =~= body.subrange(start as int, i as int).push(data@[i as int]));
            }
        }
        i = i + 1;
        proof {
            assert(out@ =~= done.map_values(|raw: Seq<u8>| line_summary(raw)));
        }
    }
    let line = summarize_line(data, start, body_len);
    proof {
        assert(body.take(body_len as int) =~= body);
        assert(data@.subrange(start as int, body_len as int) =~= body.subrange(start as int, body_len as int));
    }
    out.push(line);
    proof {
        assert(out@ =~= split_on(body, 10u8).map_values(|raw: Seq<u8>| line_summary(raw)));
    }
    out
}


// ---------------------------------------------------------------------------
// Text or binary

/// Whether a file of `bytes` bytes is small enough to be read line by line.
pub fn wants_contents(bytes: u64) -> (res: bool)
    ensures
        res == (bytes <= MAX_TEXT_BYTES),
{
    bytes <= MAX_TEXT_BYTES
}

/// A NUL byte near the start of a file means it is binary (git's own test).
pub open spec fn has_nul_near_start(data: Seq<u8>) -> bool {
    exists|i: int| 0 <= i < data.len() && i < BINARY_PROBE && data[i] == 0u8
}

/// What a file is, from its size and its contents (`None` when it was too
/// large to read or could not be read).
#[verifier::loop_isolation(false)]
pub fn classify_contents(bytes: u64, data: Option<&[u8]>) -> (res: EntryKind)
    ensures
        bytes > MAX_TEXT_BYTES ==> (res matches EntryKind::Binary { bytes: b } && b == bytes),
        bytes <= MAX_TEXT_BYTES ==> match data {
            None => res matches EntryKind::Binary { bytes: b } && b == bytes,
            Some(d) => if has_nul_near_start(d@) {
                res matches EntryKind::Binary { bytes: b } && b == bytes
            } else {
                res matches EntryKind::Text { bytes: b, lines } && b == bytes && lines@
                    == lines_summary(d@)
            },
        },
{
    if bytes > MAX_TEXT_BYTES {
        return EntryKind::Binary { bytes };
    }
    match data {
        None => EntryKind::Binary { bytes },
        Some(d) => {
            let limit = if d.len() < BINARY_PROBE { d.len() } else { BINARY_PROBE };
            let mut i: usize = 0;
            while i < limit
                invariant
                    i <= limit <= d@.len(),
                    limit <= BINARY_PROBE,
                    limit == d@.len() || limit == BINARY_PROBE,
                    forall|k: int| 0 <= k < i ==> d@[k] != 0u8,
                decreases limit - i,
            {
                if d[i] == 0 {
                    assert(d@[i as int] == 0u8);
                    assert(has_nul_near_start(d@));
                    return EntryKind::Binary { bytes };
                }
                i = i + 1;
            }
            assert(!has_nul_near_start(d@));
            EntryKind::Text { bytes, lines: summarize_lines(d) }
        },
    }
}

// ---------------------------------------------------------------------------
// git's file lists

/// What `String::from_utf8_lossy` makes of some bytes (invalid sequences
/// replaced by U+FFFD). It depends on the bytes alone.
pub uninterp spec fn utf8_lossy(bytes: Seq<u8>) -> Seq<char>;

/// Decodes bytes as UTF-8 with `String::from_utf8_lossy`. Believed, not
/// proved: the result is `utf8_lossy` of the bytes; for valid UTF-8 it is
/// exactly the decoded text, as that function's documentation says; and it
/// has no more characters than there are bytes, since every character,
/// a U+FFFD replacement too, stands for at least one byte.
#[verifier::external_body]
pub(crate) fn lossy_string(bytes: &[u8]) -> (res: String)
    ensures
        res@ == utf8_lossy(bytes@),
        vstd::utf8::valid_utf8(bytes@) ==> res@ == vstd::utf8::decode_utf8(bytes@),
        res@.len() <= bytes@.len(),
{
    String::from_utf8_lossy(bytes).into_owned()
}

/// The paths in the NUL separated output of `git ls-files -z`.
pub open spec fn ls_paths(out: Seq<u8>) -> Seq<Seq<char>> {
    nonempty_lossy(split_on(out, 0u8))
}

/// The non-empty pieces, decoded.
pub open spec fn nonempty_lossy(pieces: Seq<Seq<u8>>) -> Seq<Seq<char>>
    decreases pieces.len(),
{
    if pieces.len() == 0 {
        seq![]
    } else {
        let prev = nonempty_lossy(pieces.drop_last());
        if pieces.last().len() > 0 {
            prev.push(utf8_lossy(pieces.last()))
        } else {
            prev
        }
    }
}

/// Reads the NUL separated output of `git ls-files -z` into paths, skipping empty pieces.
pub fn parse_ls_output(out: &[u8]) -> (res: Vec<String>)
    ensures
        res@.map_values(|s: String| s@) == ls_paths(out@),
{
    let n = out.len();
    let ghost mut done: Seq<Seq<u8>> = seq![];
    let mut paths: Vec<String> = Vec::new();
    let mut start: usize = 0;
    let mut i: usize = 0;
    assert(out@.take(0) =~= seq![]);
    assert(out@.subrange(0, 0) =~= seq![]);
    while i < n
        invariant
            0 <= start <= i <= n == out@.len(),
            split_on(out@.take(i as int), 0u8) == done.push(out@.subrange(start as int, i as int)),
            paths@.map_values(|s: String| s@) == nonempty_lossy(done),
        decreases n - i,
    {
        assert(out@.take(i + 1).drop_last() =~= out@.take(i as int));
        if out[i] == 0 {
            let ghost piece = out@.subrange(start as int, i as int);
            if i > start {
                let s = lossy_string(&out[start..i]);
                paths.push(s);
            }
            proof {
                let old_done = done;
                assert(out@.subrange(i + 1, i + 1) =~= seq![]);
                done = done.push(piece);
                assert(done.drop_last() =~= old_done);
                assert(done.last() == piece);
                assert(paths@.map_values(|s: String| s@) =~= nonempty_lossy(done));
            }
            start = i + 1;
        } else {
            proof {
                assert(out@.subrange(start as int, i + 1) =~= out@.subrange(start as int, i as int).push(out@[i as int]));
            }
        }
        i = i + 1;
    }
    let ghost last = out@.subrange(start as int, n as int);
    if n > start {
        let s = lossy_string(&out[start..n]);
        paths.push(s);
    }
    proof {
        assert(out@.take(n as int) =~= out@);
        let all = done.push(last);
        assert(all.drop_last() =~= done);
        assert(all.last() == last);
        assert(paths@.map_values(|s: String| s@) =~= nonempty_lossy(all));
    }
    paths
}

/// An entry of `git ls-files --ignored --directory`: a folder when it ends
/// with `/`, which is dropped from the path together with any others after it.
pub fn ignored_listing(path: String) -> (res: Entry)
    ensures
        res.path@ == trim_end_char(path@, '/'),
        res.kind == (EntryKind::Unread { dir: path@.len() > 0 && path@.last() == '/' }),
        res.ignored,
{
    let cs = crate::text::chars_of(path.as_str());
    let dir = cs.len() > 0 && cs[cs.len() - 1] == '/';
    let mut end = cs.len();
    assert(cs@.take(cs@.len() as int) =~= cs@);
    while end > 0 && cs[end - 1] == '/'
        invariant
            end <= cs@.len(),
            cs@ == path@,
            trim_end_char(path@, '/') == trim_end_char(cs@.take(end as int), '/'),
        decreases end,
    {
        proof {
            assert(cs@.take(end as int).drop_last() =~= cs@.take(end - 1));
        }
        end = end - 1;
    }
    assert(trim_end_char(cs@.take(end as int), '/') == cs@.take(end as int));
    let mut trimmed = String::new();
    let mut k: usize = 0;
    while k < end
        invariant
            k <= end <= cs@.len(),
            trimmed@ == cs@.take(k as int),
        decreases end - k,
    {
        crate::text::push_char(&mut trimmed, cs[k]);
        proof {
            assert(cs@.take(k + 1) =~= cs@.take(k as int).push(cs@[k as int]));
        }
        k = k + 1;
    }
    ghost(trimmed, dir)
}

/// `s` without every trailing `c` (`str::trim_end_matches`).
pub open spec fn trim_end_char(s: Seq<char>, c: char) -> Seq<char>
    decreases s.len(),
{
    if s.len() > 0 && s.last() == c {
        trim_end_char(s.drop_last(), c)
    } else {
        s
    }
}

/// `s` without every leading `c` (`str::trim_start_matches`).
pub open spec fn trim_start_char(s: Seq<char>, c: char) -> Seq<char>
    decreases s.len(),
{
    if s.len() > 0 && s[0] == c {
        trim_start_char(s.drop_first(), c)
    } else {
        s
    }
}

/// What a listed path of a git repo is on disk.
#[derive(Clone, Copy, Debug, PartialEq, Eq, Structural)]
pub enum DiskKind {
    Folder,
    File,
    /// Deleted but still tracked, a symlink, or unreadable.
    Other,
}

/// A tracked or untracked path of a git repo: a file to read, a folder (a
/// git submodule, shown like an ignored folder), or nothing.
pub fn listed_entry(path: String, kind: DiskKind) -> (res: (Option<String>, Option<Entry>))
    ensures
        kind == DiskKind::File ==> res.0 == Some(path) && res.1.is_none(),
        kind == DiskKind::Folder ==> res.0.is_none() && (res.1 matches Some(e) && e.path@ == path@
            && e.kind == (EntryKind::Unread { dir: true }) && e.ignored),
        kind == DiskKind::Other ==> res.0.is_none() && res.1.is_none(),
{
    match kind {
        DiskKind::Folder => (None, Some(ghost(path, true))),
        DiskKind::File => (Some(path), None),
        DiskKind::Other => (None, None),
    }
}

// ---------------------------------------------------------------------------
// The .gitignore reader for folders that are not git repos.
// Supports `name`, `dir/`, `*.ext`, `/anchored` and `a/b` patterns.
// Not supported: `!negation` and `**`.

/// Length of the UTF-8 sequence that a byte starts: 1 for ASCII (and for a
/// stray continuation byte), 2, 3 or 4 after a lead byte.
pub open spec fn utf8_width(b: u8) -> int {
    if b >= 0xF0 {
        4
    } else if b >= 0xE0 {
        3
    } else if b >= 0xC0 {
        2
    } else {
        1
    }
}

/// Bytes of the first character of `s` (all of `s` when it ends inside that
/// character).
pub open spec fn first_char_len(s: Seq<u8>) -> int
    recommends
        s.len() > 0,
{
    if utf8_width(s[0]) <= s.len() {
        utf8_width(s[0])
    } else {
        s.len() as int
    }
}

/// Minimal glob over the UTF-8 bytes of a path: `*` matches any run of
/// characters other than `/`, `?` exactly one character other than `/`, and
/// every other byte matches itself.
pub open spec fn glob_match(p: Seq<u8>, s: Seq<u8>) -> bool
    decreases p.len() + s.len(),
{
    if p.len() == 0 {
        s.len() == 0
    } else if p[0] == 42u8 {
        glob_match(p.drop_first(), s) || (s.len() > 0 && s[0] != 47u8 && glob_match(p, s.skip(first_char_len(s))))
    } else if s.len() == 0 {
        false
    } else if p[0] == 63u8 && s[0] != 47u8 {
        glob_match(p.drop_first(), s.skip(first_char_len(s)))
    } else if p[0] == s[0] {
        glob_match(p.drop_first(), s.drop_first())
    } else {
        false
    }
}

/// `s` is made of whole UTF-8 sequences (as a path's bytes are): stepping
/// from character to character lands exactly at its end.
pub open spec fn whole_chars(s: Seq<u8>) -> bool
    decreases s.len(),
{
    if s.len() == 0 {
        true
    } else {
        utf8_width(s[0]) <= s.len() && whole_chars(s.skip(utf8_width(s[0])))
    }
}

/// `s` holds no `/`.
pub open spec fn no_slash(s: Seq<u8>) -> bool {
    forall|j: int| 0 <= j < s.len() ==> s[j] != 47u8
}

/// ASCII bytes are whole characters, each on its own.
pub proof fn lemma_ascii_whole_chars(s: Seq<u8>)
    requires
        forall|j: int| 0 <= j < s.len() ==> s[j] < 0x80u8,
    ensures
        whole_chars(s),
    decreases s.len(),
{
    if s.len() > 0 {
        assert(s[0] < 0x80u8);
        let r = s.skip(1);
        assert forall|j: int| 0 <= j < r.len() implies r[j] < 0x80u8 by {
            assert(r[j] == s[j + 1]);
        }
        lemma_ascii_whole_chars(r);
    }
}

/// A lone `*` matches every name without a `/`: whatever its bytes, dots
/// included.
pub proof fn lemma_star_matches_any_name(s: Seq<u8>)
    requires
        no_slash(s),
    ensures
        glob_match(seq![42u8], s),
    decreases s.len(),
{
    let p = seq![42u8];
    assert(p.drop_first() =~= Seq::<u8>::empty());
    assert(p[0] == 42u8);
    if s.len() == 0 {
        assert(glob_match(Seq::<u8>::empty(), s));
    } else {
        assert(s[0] != 47u8);
        let rest = s.skip(first_char_len(s));
        assert(no_slash(rest)) by {
            assert forall|j: int| 0 <= j < rest.len() implies rest[j] != 47u8 by {
                assert(rest[j] == s[j + first_char_len(s)]);
            }
        }
        lemma_star_matches_any_name(rest);
    }
}

/// A leading `*` takes any run of whole characters without a `/`: when the
/// rest of the pattern matches `s2`, `*` followed by it matches `s1 + s2`.
pub proof fn lemma_star_takes_any_run(p: Seq<u8>, s1: Seq<u8>, s2: Seq<u8>)
    requires
        no_slash(s1),
        whole_chars(s1),
        glob_match(p, s2),
    ensures
        glob_match(seq![42u8] + p, s1 + s2),
    decreases s1.len(),
{
    let sp = seq![42u8] + p;
    assert(sp.drop_first() =~= p);
    assert(sp[0] == 42u8);
    if s1.len() == 0 {
        assert(s1 + s2 =~= s2);
    } else {
        let s = s1 + s2;
        let w = utf8_width(s1[0]);
        assert(s[0] == s1[0]);
        assert(first_char_len(s) == w);
        let r1 = s1.skip(w);
        assert(no_slash(r1)) by {
            assert forall|j: int| 0 <= j < r1.len() implies r1[j] != 47u8 by {
                assert(r1[j] == s1[j + w]);
            }
        }
        lemma_star_takes_any_run(p, r1, s2);
        assert(s.skip(w) =~= r1 + s2);
    }
}

/// Bytes of the character that starts at `s[j]`.
fn char_len_at(s: &[u8], j: usize) -> (res: usize)
    requires
        j < s@.len(),
    ensures
        res as int == first_char_len(s@.skip(j as int)),
        1 <= res <= s@.len() - j,
{
    let b = s[j];
    let w: usize = if b >= 0xF0 {
        4
    } else if b >= 0xE0 {
        3
    } else if b >= 0xC0 {
        2
    } else {
        1
    };
    if w <= s.len() - j {
        w
    } else {
        s.len() - j
    }
}

fn glob_from(p: &[u8], s: &[u8], i: usize, j: usize) -> (res: bool)
    requires
        i <= p@.len(),
        j <= s@.len(),
    ensures
        res == glob_match(p@.skip(i as int), s@.skip(j as int)),
    decreases (p@.len() - i) + (s@.len() - j),
{
    let ghost ps = p@.skip(i as int);
    let ghost ss = s@.skip(j as int);
    proof {
        if i < p@.len() {
            assert(ps.drop_first() =~= p@.skip(i + 1));
        }
        if j < s@.len() {
            assert(ss.drop_first() =~= s@.skip(j + 1));
        }
    }
    if i == p.len() {
        return j == s.len();
    }
    if p[i] == 42 {
        if glob_from(p, s, i + 1, j) {
            return true;
        }
        if j == s.len() || s[j] == 47 {
            return false;
        }
        let w = char_len_at(s, j);
        proof {
            assert(ss.skip(w as int) =~= s@.skip(j + w));
        }
        return glob_from(p, s, i, j + w);
    }
    if j == s.len() {
        return false;
    }
    if p[i] == 63 && s[j] != 47 {
        let w = char_len_at(s, j);
        proof {
            assert(ss.skip(w as int) =~= s@.skip(j + w));
        }
        return glob_from(p, s, i + 1, j + w);
    }
    if p[i] == s[j] {
        return glob_from(p, s, i + 1, j + 1);
    }
    false
}

/// Whether the pattern `p` matches all of `s`.
pub fn glob(p: &[u8], s: &[u8]) -> (res: bool)
    ensures
        res == glob_match(p@, s@),
{
    proof {
        assert(p@.skip(0) =~= p@);
        assert(s@.skip(0) =~= s@);
    }
    glob_from(p, s, 0, 0)
}

/// One line of a .gitignore.
pub struct Rule {
    /// Folder (relative to the root) that holds the .gitignore.
    pub base: String,
    pub pattern: String,
    pub anchored: bool,
    pub dir_only: bool,
}

pub open spec fn utf8(s: Seq<char>) -> Seq<u8> {
    vstd::utf8::encode_utf8(s)
}

/// Whether a rule ignores the entry `name` at `path`.
pub open spec fn rule_matches_spec(
    base: Seq<u8>,
    pattern: Seq<u8>,
    anchored: bool,
    dir_only: bool,
    path: Seq<u8>,
    name: Seq<u8>,
    is_dir: bool,
) -> bool {
    if dir_only && !is_dir {
        false
    } else if anchored {
        if base.len() == 0 {
            glob_match(pattern, path)
        } else if path.len() > base.len() && path.take(base.len() as int) == base && path[base.len() as int]
            == 47u8 {
            glob_match(pattern, path.skip(base.len() as int + 1))
        } else {
            false
        }
    } else {
        glob_match(pattern, name)
    }
}

/// Whether `rule` ignores the entry `name` at `path` (relative to the root).
#[verifier::loop_isolation(false)]
pub fn rule_matches(rule: &Rule, path: &str, name: &str, is_dir: bool) -> (res: bool)
    ensures
        res == rule_matches_spec(
            utf8(rule.base@),
            utf8(rule.pattern@),
            rule.anchored,
            rule.dir_only,
            utf8(path@),
            utf8(name@),
            is_dir,
        ),
{
    if rule.dir_only && !is_dir {
        return false;
    }
    let pattern = rule.pattern.as_str().as_bytes();
    if rule.anchored {
        let base = rule.base.as_str().as_bytes();
        let p = path.as_bytes();
        if base.len() == 0 {
            return glob(pattern, p);
        }
        if p.len() <= base.len() {
            return false;
        }
        let mut k: usize = 0;
        while k < base.len()
            invariant
                k <= base@.len() < p@.len(),
                forall|m: int| 0 <= m < k ==> base@[m] == p@[m],
            decreases base.len() - k,
        {
            if base[k] != p[k] {
                proof {
                    assert(p@.take(base@.len() as int)[k as int] != base@[k as int]);
                }
                return false;
            }
            k = k + 1;
        }
        proof {
            assert(p@.take(base@.len() as int) =~= base@);
        }
        if p[base.len()] != 47 {
            return false;
        }
        let local = &p[base.len() + 1..p.len()];
        proof {
            assert(local@ =~= p@.skip(base@.len() as int + 1));
        }
        glob(pattern, local)
    } else {
        glob(pattern, name.as_bytes())
    }
}

/// Whether any rule ignores the entry.
pub fn any_rule_matches(rules: &Vec<Rule>, path: &str, name: &str, is_dir: bool) -> (res: bool)
    ensures
        res == exists|i: int|
            0 <= i < rules@.len() && rule_matches_spec(
                utf8(#[trigger] rules@[i].base@),
                utf8(rules@[i].pattern@),
                rules@[i].anchored,
                rules@[i].dir_only,
                utf8(path@),
                utf8(name@),
                is_dir,
            ),
{
    let mut i: usize = 0;
    while i < rules.len()
        invariant
            i <= rules@.len(),
            forall|k: int|
                0 <= k < i ==> !rule_matches_spec(
                    utf8(#[trigger] rules@[k].base@),
                    utf8(rules@[k].pattern@),
                    rules@[k].anchored,
                    rules@[k].dir_only,
                    utf8(path@),
                    utf8(name@),
                    is_dir,
                ),
        decreases rules.len() - i,
    {
        if rule_matches(&rules[i], path, name, is_dir) {
            return true;
        }
        i = i + 1;
    }
    false
}


/// The rule a trimmed .gitignore line gives, as (pattern, anchored, dir_only):
/// none for blank lines, comments and negations.
pub open spec fn gitignore_rule(t: Seq<char>) -> Option<(Seq<char>, bool, bool)> {
    if t.len() == 0 || t[0] == '#' || t[0] == '!' {
        None
    } else {
        let dir_only = t.last() == '/';
        let l = trim_end_char(t, '/');
        Some((trim_start_char(l, '/'), l.contains('/'), dir_only))
    }
}

/// The rules of all lines, in order. Lines are split at `\n`; a `\r` before
/// it is whitespace and trimmed with the rest.
pub open spec fn rules_of_lines(lines: Seq<Seq<char>>) -> Seq<(Seq<char>, bool, bool)>
    decreases lines.len(),
{
    if lines.len() == 0 {
        seq![]
    } else {
        let prev = rules_of_lines(lines.drop_last());
        match gitignore_rule(trim_white(lines.last())) {
            Some(r) => prev.push(r),
            None => prev,
        }
    }
}

pub open spec fn gitignore_rules(text: Seq<char>) -> Seq<(Seq<char>, bool, bool)> {
    rules_of_lines(split_chars(text, '\n'))
}

proof fn lemma_trim_end_char_sub(cs: Seq<char>, lo: int, e: int, hi: int)
    requires
        0 <= lo <= e <= hi <= cs.len(),
        forall|k: int| e <= k < hi ==> cs[k] == '/',
        e > lo ==> cs[e - 1] != '/',
    ensures
        trim_end_char(cs.subrange(lo, hi), '/') == cs.subrange(lo, e),
    decreases hi - e,
{
    if hi > e {
        assert(cs.subrange(lo, hi).drop_last() =~= cs.subrange(lo, hi - 1));
        lemma_trim_end_char_sub(cs, lo, e, hi - 1);
    }
}

proof fn lemma_trim_start_char_sub(cs: Seq<char>, lo: int, st: int, e: int)
    requires
        0 <= lo <= st <= e <= cs.len(),
        forall|k: int| lo <= k < st ==> cs[k] == '/',
        st < e ==> cs[st] != '/',
    ensures
        trim_start_char(cs.subrange(lo, e), '/') == cs.subrange(st, e),
    decreases st - lo,
{
    if st > lo {
        assert(cs.subrange(lo, e).drop_first() =~= cs.subrange(lo + 1, e));
        lemma_trim_start_char_sub(cs, lo + 1, st, e);
    }
}

/// The rule of the line `cs[start..end]`, if it has one.
fn rule_of_line(cs: &Vec<char>, start: usize, end: usize, rel: &str) -> (res: Option<Rule>)
    requires
        start <= end <= cs@.len(),
    ensures
        match gitignore_rule(trim_white(cs@.subrange(start as int, end as int))) {
            None => res.is_none(),
            Some(r) => res matches Some(rule) && rule.base@ == rel@ && rule.pattern@ == r.0
                && rule.anchored == r.1 && rule.dir_only == r.2,
        },
{
    let (lo, hi) = trim_bounds(cs, start, end);
    let ghost t = cs@.subrange(lo as int, hi as int);
    if lo == hi || cs[lo] == '#' || cs[lo] == '!' {
        return None;
    }
    let dir_only = cs[hi - 1] == '/';
    let mut e = hi;
    while e > lo && cs[e - 1] == '/'
        invariant
            lo <= e <= hi <= cs@.len(),
            forall|k: int| e <= k < hi ==> cs@[k] == '/',
        decreases e,
    {
        e = e - 1;
    }
    proof {
        lemma_trim_end_char_sub(cs@, lo as int, e as int, hi as int);
    }
    let mut anchored = false;
    let mut k = lo;
    while k < e
        invariant
            lo <= k <= e <= cs@.len(),
            anchored == exists|m: int| lo <= m < k && cs@[m] == '/',
        decreases e - k,
    {
        if cs[k] == '/' {
            anchored = true;
        }
        k = k + 1;
    }
    proof {
        let l = cs@.subrange(lo as int, e as int);
        if anchored {
            let m = choose|m: int| lo <= m < e && cs@[m] == '/';
            assert(l[m - lo] == '/');
        }
        if l.contains('/') {
            let m = choose|m: int| 0 <= m < l.len() && l[m] == '/';
            assert(cs@[m + lo] == '/');
        }
    }
    let mut st = lo;
    while st < e && cs[st] == '/'
        invariant
            lo <= st <= e <= cs@.len(),
            forall|m: int| lo <= m < st ==> cs@[m] == '/',
        decreases e - st,
    {
        st = st + 1;
    }
    proof {
        lemma_trim_start_char_sub(cs@, lo as int, st as int, e as int);
    }
    let pattern = string_of(cs, st, e);
    Some(Rule { base: String::from_str(rel), pattern, anchored, dir_only })
}

/// The rules of a .gitignore found in the folder `rel` (relative to the root).
pub fn parse_gitignore(text: &str, rel: &str) -> (res: Vec<Rule>)
    ensures
        res@.len() == gitignore_rules(text@).len(),
        forall|i: int|
            0 <= i < res@.len() ==> {
                let r = gitignore_rules(text@)[i];
                &&& (#[trigger] res@[i]).base@ == rel@
                &&& res@[i].pattern@ == r.0
                &&& res@[i].anchored == r.1
                &&& res@[i].dir_only == r.2
            },
{
    let cs = chars_of(text);
    let n = cs.len();
    let ghost mut done: Seq<Seq<char>> = seq![];
    let mut rules: Vec<Rule> = Vec::new();
    let mut start: usize = 0;
    let mut i: usize = 0;
    assert(cs@.take(0) =~= seq![]);
    assert(cs@.subrange(0, 0) =~= seq![]);
    while i < n
        invariant
            0 <= start <= i <= n == cs@.len(),
            cs@ == text@,
            split_chars(cs@.take(i as int), '\n') == done.push(cs@.subrange(start as int, i as int)),
            rules@.len() == rules_of_lines(done).len(),
            forall|j: int|
                0 <= j < rules@.len() ==> {
                    let r = rules_of_lines(done)[j];
                    &&& (#[trigger] rules@[j]).base@ == rel@
                    &&& rules@[j].pattern@ == r.0
                    &&& rules@[j].anchored == r.1
                    &&& rules@[j].dir_only == r.2
                },
        decreases n - i,
    {
        assert(cs@.take(i + 1).drop_last() =~= cs@.take(i as int));
        if cs[i] == '\n' {
            let ghost piece = cs@.subrange(start as int, i as int);
            let rule = rule_of_line(&cs, start, i, rel);
            proof {
                let old_done = done;
                assert(cs@.subrange(i + 1, i + 1) =~= seq![]);
                done = done.push(piece);
                assert(done.drop_last() =~= old_done);
            }
            match rule {
                Some(r) => rules.push(r),
                None => {},
            }
            start = i + 1;
        } else {
            proof {
                assert(cs@.subrange(start as int, i + 1) =~= cs@.subrange(start as int, i as int).push(cs@[i as int]));
            }
        }
        i = i + 1;
    }
    let ghost last = cs@.subrange(start as int, n as int);
    let rule = rule_of_line(&cs, start, n, rel);
    proof {
        assert(cs@.take(n as int) =~= cs@);
        assert(done.push(last).drop_last() =~= done);
    }
    match rule {
        Some(r) => rules.push(r),
        None => {},
    }
    rules
}

/// `name` inside the folder `rel`: `rel/name`, or just `name` at the root.
pub open spec fn join_path(rel: Seq<char>, name: Seq<char>) -> Seq<char> {
    if rel.len() == 0 {
        name
    } else {
        rel + seq!['/'] + name
    }
}

/// `name` inside the folder `rel`.
pub fn join_rel(rel: &str, name: &str) -> (res: String)
    ensures
        res@ == join_path(rel@, name@),
{
    let mut s = String::from_str(rel);
    if rel.unicode_len() > 0 {
        crate::text::push_char(&mut s, '/');
    }
    s.append(name);
    s
}

/// What the walk does with one folder entry.
pub enum WalkStep {
    /// Nothing: `.git`, or neither a file nor a folder.
    Skip,
    /// Ignored by a rule: shown collapsed.
    Ignore(Entry),
    /// A folder to walk into.
    Descend(String),
    /// A file to read.
    Read(String),
}

/// The name of git's own folder.
pub open spec fn is_git_dir(name: Seq<char>) -> bool {
    name == seq!['.', 'g', 'i', 't']
}

/// Whether any rule ignores an entry (the spec form of `any_rule_matches`).
pub open spec fn ignored_by(rules: Seq<Rule>, path: Seq<char>, name: Seq<char>, is_dir: bool) -> bool {
    exists|i: int|
        0 <= i < rules.len() && rule_matches_spec(
            utf8(#[trigger] rules[i].base@),
            utf8(rules[i].pattern@),
            rules[i].anchored,
            rules[i].dir_only,
            utf8(path),
            utf8(name),
            is_dir,
        )
}

/// Decides about the entry `name` of the folder `rel` during the walk of a
/// folder that is not a git repo, under the .gitignore rules in effect.
pub fn walk_step(rules: &Vec<Rule>, rel: &str, name: &str, is_dir: bool, is_file: bool) -> (res:
    WalkStep)
    ensures
        ({
            let path = join_path(rel@, name@);
            if is_git_dir(name@) {
                res is Skip
            } else if ignored_by(rules@, path, name@, is_dir) {
                if is_dir || is_file {
                    res matches WalkStep::Ignore(e) && e.path@ == path && e.kind == (EntryKind::Unread {
                        dir: is_dir,
                    }) && e.ignored
                } else {
                    res is Skip
                }
            } else if is_dir {
                res matches WalkStep::Descend(p) && p@ == path
            } else if is_file {
                res matches WalkStep::Read(p) && p@ == path
            } else {
                res is Skip
            }
        }),
{
    let path = join_rel(rel, name);
    let git = String::from_str(".git");
    proof {
        reveal_strlit(".git");
        assert(git@ =~= seq!['.', 'g', 'i', 't']);
    }
    let name_s = String::from_str(name);
    if name_s == git {
        return WalkStep::Skip;
    }
    if any_rule_matches(rules, path.as_str(), name, is_dir) {
        if is_dir || is_file {
            return WalkStep::Ignore(ghost(path, is_dir));
        }
        return WalkStep::Skip;
    }
    if is_dir {
        WalkStep::Descend(path)
    } else if is_file {
        WalkStep::Read(path)
    } else {
        WalkStep::Skip
    }
}

/// What the walk of an ignored folder, read on request, does with one of
/// its entries. Nothing below an ignored folder is filtered: every file is
/// taken, up to [`MAX_EXPAND_FILES`].
pub enum ExpandStep {
    /// Neither a file nor a folder.
    Skip,
    /// A folder to walk into.
    Descend(String),
    /// A file to take; `last` when it is the one that reaches the cap, so
    /// that the walk stops.
    Take { path: String, last: bool },
}

/// Decides about the entry `name` of the folder `dir` while an ignored
/// folder is read, `taken` files having been taken so far.
pub fn expand_step(dir: &str, name: &str, is_dir: bool, is_file: bool, taken: usize) -> (res: ExpandStep)
    requires
        taken < MAX_EXPAND_FILES,
    ensures
        ({
            let path = dir@ + seq!['/'] + name@;
            if is_dir {
                res matches ExpandStep::Descend(p) && p@ == path
            } else if is_file {
                res matches ExpandStep::Take { path: p, last } && p@ == path && last == (taken + 1
                    >= MAX_EXPAND_FILES)
            } else {
                res is Skip
            }
        }),
{
    if !is_dir && !is_file {
        return ExpandStep::Skip;
    }
    let mut path = String::from_str(dir);
    crate::text::push_char(&mut path, '/');
    path.append(name);
    if is_dir {
        ExpandStep::Descend(path)
    } else {
        ExpandStep::Take { path, last: taken + 1 >= MAX_EXPAND_FILES }
    }
}

/// The rule `r` is rule `k` of a .gitignore whose text is `text`, found in
/// the folder `rel`.
pub open spec fn is_gitignore_rule(r: Rule, text: Seq<char>, rel: Seq<char>, k: int) -> bool {
    let g = gitignore_rules(text)[k];
    &&& r.base@ == rel
    &&& r.pattern@ == g.0
    &&& r.anchored == g.1
    &&& r.dir_only == g.2
}

/// The walk enters the folder `rel`, whose .gitignore holds `text` (`None`
/// when it has none): the folder's rules join those in effect, after them.
/// Gives how many rules were added.
pub fn enter_folder(rules: &mut Vec<Rule>, text: Option<&str>, rel: &str) -> (added: usize)
    ensures
        final(rules)@.len() == old(rules)@.len() + added,
        final(rules)@.take(old(rules)@.len() as int) == old(rules)@,
        match text {
            None => added == 0,
            Some(t) => {
                &&& added == gitignore_rules(t@).len()
                &&& forall|k: int|
                    0 <= k < added ==> is_gitignore_rule(#[trigger] final(rules)@[old(rules)@.len() + k], t@, rel@, k)
            },
        },
{
    match text {
        None => {
            assert(rules@.take(rules@.len() as int) =~= rules@);
            0
        },
        Some(t) => {
            let ghost before = rules@;
            let mut found = parse_gitignore(t, rel);
            let ghost f = found@;
            let added = found.len();
            rules.append(&mut found);
            assert(rules@ == before + f);
            assert(rules@.take(before.len() as int) =~= before);
            assert forall|k: int| 0 <= k < added implies is_gitignore_rule(
                #[trigger] rules@[before.len() + k],
                t@,
                rel@,
                k,
            ) by {
                assert(rules@[before.len() + k] == f[k]);
            }
            added
        },
    }
}

/// The walk leaves a folder: the `added` rules its .gitignore brought in
/// are dropped, and the rules in effect are those from before it.
pub fn leave_folder(rules: &mut Vec<Rule>, added: usize)
    requires
        added <= old(rules)@.len(),
    ensures
        final(rules)@ == old(rules)@.take(old(rules)@.len() - added),
{
    let keep = rules.len() - added;
    rules.truncate(keep);
}

/// Leaving a folder after entering it gives back the rules from before.
pub proof fn lemma_enter_then_leave(before: Seq<Rule>, after: Seq<Rule>, added: int)
    requires
        after.len() == before.len() + added,
        after.take(before.len() as int) == before,
        0 <= added,
    ensures
        after.take(after.len() - added) == before,
{
}

} // verus!
