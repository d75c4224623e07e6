//! What the map shows besides its geometry: the hue of a file by its
//! extension, label texts, and the lines of code drawn inside a file when it
//! is zoomed in far enough.

use vstd::prelude::*;
use crate::i18n::Language;
use crate::text::{chars_of, push_char, split_chars, split_string, string_of};

verus! {

/// Position of the last `.` in `s`.
pub open spec fn last_dot(s: Seq<char>) -> Option<int>
    decreases s.len(),
{
    if s.len() == 0 {
        None
    } else if s.last() == '.' {
        Some(s.len() - 1)
    } else {
        last_dot(s.drop_last())
    }
}

proof fn lemma_last_dot(s: Seq<char>)
    ensures
        last_dot(s) matches Some(i) ==> 0 <= i < s.len() && s[i] == '.',
    decreases s.len(),
{
    if s.len() > 0 {
        lemma_last_dot(s.drop_last());
    }
}

/// The extension of a file name: what follows its last `.`, or nothing.
pub open spec fn extension(name: Seq<char>) -> Seq<char> {
    match last_dot(name) {
        Some(i) => name.skip(i + 1),
        None => Seq::<char>::empty(),
    }
}

/// The 32-bit FNV-1a hash of some bytes.
pub open spec fn fnv1a(bytes: Seq<u8>) -> u32
    decreases bytes.len(),
{
    if bytes.len() == 0 {
        2166136261u32
    } else {
        (fnv1a(bytes.drop_last()) ^ (bytes.last() as u32)).wrapping_mul(16777619u32)
    }
}

/// The hue of a file, in thousandths of the color circle: hand-picked for
/// common extensions, a stable hash of the extension for the others.
pub open spec fn hue_milli(name: Seq<char>) -> u32 {
    let e = extension(name);
    if e == "rs"@ {
        70
    } else if e == "clj"@ || e == "cljc"@ || e == "edn"@ {
        330
    } else if e == "cljs"@ {
        450
    } else if e == "js"@ || e == "mjs"@ || e == "jsx"@ {
        140
    } else if e == "ts"@ || e == "tsx"@ {
        580
    } else if e == "css"@ || e == "scss"@ {
        780
    } else if e == "html"@ {
        20
    } else if e == "json"@ || e == "toml"@ || e == "yaml"@ || e == "yml"@ {
        500
    } else if e == "md"@ || e == "txt"@ {
        620
    } else {
        (fnv1a(vstd::utf8::encode_utf8(e)) % 1000) as u32
    }
}

/// The hand-picked hues, entry by entry: Rust 70; Clojure and EDN 330,
/// ClojureScript 450; JavaScript 140; TypeScript 580; CSS 780; HTML 20;
/// JSON, TOML and YAML 500; Markdown and text 620 (thousandths of the color
/// circle). Other extensions get a hash below 1000.
pub proof fn lemma_hue_table(name: Seq<char>)
    ensures
        extension(name) == "rs"@ ==> hue_milli(name) == 70,
        (extension(name) == "clj"@ || extension(name) == "cljc"@ || extension(name) == "edn"@) ==> hue_milli(name)
            == 330,
        extension(name) == "cljs"@ ==> hue_milli(name) == 450,
        (extension(name) == "js"@ || extension(name) == "mjs"@ || extension(name) == "jsx"@) ==> hue_milli(name)
            == 140,
        (extension(name) == "ts"@ || extension(name) == "tsx"@) ==> hue_milli(name) == 580,
        (extension(name) == "css"@ || extension(name) == "scss"@) ==> hue_milli(name) == 780,
        extension(name) == "html"@ ==> hue_milli(name) == 20,
        (extension(name) == "json"@ || extension(name) == "toml"@ || extension(name) == "yaml"@ || extension(name)
            == "yml"@) ==> hue_milli(name) == 500,
        (extension(name) == "md"@ || extension(name) == "txt"@) ==> hue_milli(name) == 620,
        hue_milli(name) < 1000,
{
    let e = extension(name);
    reveal_strlit("rs");
    reveal_strlit("clj");
    reveal_strlit("cljc");
    reveal_strlit("edn");
    reveal_strlit("cljs");
    reveal_strlit("js");
    reveal_strlit("mjs");
    reveal_strlit("jsx");
    reveal_strlit("ts");
    reveal_strlit("tsx");
    reveal_strlit("css");
    reveal_strlit("scss");
    reveal_strlit("html");
    reveal_strlit("json");
    reveal_strlit("toml");
    reveal_strlit("yaml");
    reveal_strlit("yml");
    reveal_strlit("md");
    reveal_strlit("txt");
    if e == "rs"@ {
        assert(e.len() == 2 && e[0] == 'r' && e[1] == 's');
    }
    if e == "clj"@ {
        assert(e.len() == 3 && e[0] == 'c' && e[1] == 'l' && e[2] == 'j');
    }
    if e == "cljc"@ {
        assert(e.len() == 4 && e[0] == 'c' && e[1] == 'l' && e[2] == 'j' && e[3] == 'c');
    }
    if e == "edn"@ {
        assert(e.len() == 3 && e[0] == 'e' && e[1] == 'd' && e[2] == 'n');
    }
    if e == "cljs"@ {
        assert(e.len() == 4 && e[0] == 'c' && e[1] == 'l' && e[2] == 'j' && e[3] == 's');
    }
    if e == "js"@ {
        assert(e.len() == 2 && e[0] == 'j' && e[1] == 's');
    }
    if e == "mjs"@ {
        assert(e.len() == 3 && e[0] == 'm' && e[1] == 'j' && e[2] == 's');
    }
    if e == "jsx"@ {
        assert(e.len() == 3 && e[0] == 'j' && e[1] == 's' && e[2] == 'x');
    }
    if e == "ts"@ {
        assert(e.len() == 2 && e[0] == 't' && e[1] == 's');
    }
    if e == "tsx"@ {
        assert(e.len() == 3 && e[0] == 't' && e[1] == 's' && e[2] == 'x');
    }
    if e == "css"@ {
        assert(e.len() == 3 && e[0] == 'c' && e[1] == 's' && e[2] == 's');
    }
    if e == "scss"@ {
        assert(e.len() == 4 && e[0] == 's' && e[1] == 'c' && e[2] == 's' && e[3] == 's');
    }
    if e == "html"@ {
        assert(e.len() == 4 && e[0] == 'h' && e[1] == 't' && e[2] == 'm' && e[3] == 'l');
    }
    if e == "json"@ {
        assert(e.len() == 4 && e[0] == 'j' && e[1] == 's' && e[2] == 'o' && e[3] == 'n');
    }
    if e == "toml"@ {
        assert(e.len() == 4 && e[0] == 't' && e[1] == 'o' && e[2] == 'm' && e[3] == 'l');
    }
    if e == "yaml"@ {
        assert(e.len() == 4 && e[0] == 'y' && e[1] == 'a' && e[2] == 'm' && e[3] == 'l');
    }
    if e == "yml"@ {
        assert(e.len() == 3 && e[0] == 'y' && e[1] == 'm' && e[2] == 'l');
    }
    if e == "md"@ {
        assert(e.len() == 2 && e[0] == 'm' && e[1] == 'd');
    }
    if e == "txt"@ {
        assert(e.len() == 3 && e[0] == 't' && e[1] == 'x' && e[2] == 't');
    }
}

/// `cs[lo..hi]` spells `word`.
fn spells(cs: &Vec<char>, lo: usize, hi: usize, word: &str) -> (res: bool)
    requires
        lo <= hi <= cs@.len(),
    ensures
        res == (cs@.subrange(lo as int, hi as int) == word@),
{
    let w = chars_of(word);
    if hi - lo != w.len() {
        return false;
    }
    let mut k: usize = 0;
    while k < w.len()
        invariant
            k <= w@.len() == hi - lo,
            lo <= hi <= cs@.len(),
            w@ == word@,
            forall|j: int| 0 <= j < k ==> cs@[lo + j] == w@[j],
        decreases w.len() - k,
    {
        if cs[lo + k] != w[k] {
            return false;
        }
        k = k + 1;
    }
    assert(cs@.subrange(lo as int, hi as int) =~= w@);
    true
}

/// The FNV-1a hash of the UTF-8 bytes of `s`.
fn fnv1a_of(s: &str) -> (res: u32)
    ensures
        res == fnv1a(vstd::utf8::encode_utf8(s@)),
{
    let bytes = s.as_bytes();
    let ghost b = bytes@;
    let mut h: u32 = 2166136261;
    let mut k: usize = 0;
    assert(b.take(0) =~= seq![]);
    while k < bytes.len()
        invariant
            k <= b.len(),
            b == bytes@,
            h == fnv1a(b.take(k as int)),
        decreases bytes.len() - k,
    {
        assert(b.take(k + 1).drop_last() =~= b.take(k as int));
        h = (h ^ bytes[k] as u32).wrapping_mul(16777619);
        k = k + 1;
    }
    assert(b.take(k as int) =~= b);
    h
}

/// The hue of a file by its extension, in thousandths of the color circle.
pub fn ext_hue_milli(name: &str) -> (res: u32)
    ensures
        res == hue_milli(name@),
        res < 1000,
{
    let cs = chars_of(name);
    let n = cs.len();
    let mut dot: Option<usize> = None;
    let mut k: usize = 0;
    assert(cs@.take(0) =~= seq![]);
    while k < n
        invariant
            k <= n == cs@.len(),
            cs@ == name@,
            dot == (match last_dot(cs@.take(k as int)) {
                Some(i) => Some(i as usize),
                None => None,
            }),
            dot matches Some(d) ==> d < k,
        decreases n - k,
    {
        assert(cs@.take(k + 1).drop_last() =~= cs@.take(k as int));
        if cs[k] == '.' {
            dot = Some(k);
        }
        k = k + 1;
    }
    assert(cs@.take(n as int) =~= cs@);
    let lo = match dot {
        Some(d) => d + 1,
        None => n,
    };
    proof {
        lemma_last_dot(cs@);
        assert(cs@.subrange(lo as int, n as int) =~= extension(name@));
    }
    if spells(&cs, lo, n, "rs") {
        70
    } else if spells(&cs, lo, n, "clj") || spells(&cs, lo, n, "cljc") || spells(&cs, lo, n, "edn") {
        330
    } else if spells(&cs, lo, n, "cljs") {
        450
    } else if spells(&cs, lo, n, "js") || spells(&cs, lo, n, "mjs") || spells(&cs, lo, n, "jsx") {
        140
    } else if spells(&cs, lo, n, "ts") || spells(&cs, lo, n, "tsx") {
        580
    } else if spells(&cs, lo, n, "css") || spells(&cs, lo, n, "scss") {
        780
    } else if spells(&cs, lo, n, "html") {
        20
    } else if spells(&cs, lo, n, "json") || spells(&cs, lo, n, "toml") || spells(&cs, lo, n, "yaml")
        || spells(&cs, lo, n, "yml") {
        500
    } else if spells(&cs, lo, n, "md") || spells(&cs, lo, n, "txt") {
        620
    } else {
        let ext = string_of(&cs, lo, n);
        fnv1a_of(ext.as_str()) % 1000
    }
}

/// Label of an ignored entry that has not been read: its name and whether
/// it is being read.
pub fn unread_label(language: Language, name: &str, loading: bool) -> (res: String)
    ensures
        res@ == name@ + " ("@ + (if loading {
            match language {
                Language::English => "reading..."@,
                Language::SimplifiedChinese => "正在读取……"@,
            }
        } else {
            match language {
                Language::English => "ignored"@,
                Language::SimplifiedChinese => "已忽略"@,
            }
        }) + ")"@,
{
    let suffix = if loading {
        language.reading_suffix()
    } else {
        language.ignored_suffix()
    };
    let mut s = String::from_str(name);
    s.append(" (");
    s.append(suffix);
    s.append(")");
    s
}

/// The first `n` characters of `text` (all of them when it is shorter).
pub fn first_chars(text: &str, n: usize) -> (res: String)
    ensures
        res@ == (if text@.len() <= n {
            text@
        } else {
            text@.take(n as int)
        }),
{
    let cs = chars_of(text);
    let end = if cs.len() <= n {
        cs.len()
    } else {
        n
    };
    let res = string_of(&cs, 0, end);
    assert(text@.len() <= n ==> cs@.subrange(0, end as int) =~= text@);
    assert(text@.len() > n ==> cs@.subrange(0, end as int) =~= text@.take(n as int));
    res
}

/// A label cut to at most `max_chars` characters, ending in `…` when cut.
pub fn fit_label(text: &str, max_chars: usize) -> (res: String)
    ensures
        res@ == (if text@.len() > max_chars {
            text@.take(if max_chars > 0 {
                max_chars - 1
            } else {
                0
            }) + seq!['…']
        } else {
            text@
        }),
{
    let cs = chars_of(text);
    if cs.len() > max_chars {
        let keep = if max_chars > 0 {
            max_chars - 1
        } else {
            0
        };
        let mut s = string_of(&cs, 0, keep);
        push_char(&mut s, '…');
        assert(cs@.subrange(0, keep as int) =~= text@.take(keep as int));
        s
    } else {
        String::from_str(text)
    }
}

/// A line without one final carriage return.
pub open spec fn strip_cr(l: Seq<char>) -> Seq<char> {
    if l.len() > 0 && l.last() == '\r' {
        l.drop_last()
    } else {
        l
    }
}

/// A line with every tab turned into four spaces.
pub open spec fn expand_tabs(l: Seq<char>) -> Seq<char>
    decreases l.len(),
{
    if l.len() == 0 {
        Seq::<char>::empty()
    } else {
        expand_tabs(l.drop_last()) + if l.last() == '\t' {
            seq![' ', ' ', ' ', ' ']
        } else {
            seq![l.last()]
        }
    }
}

/// The lines of a text as `str::lines` gives them (split at `\n`, a `\r`
/// before a `\n` dropped, no line after a final `\n`), tabs expanded.
pub open spec fn text_lines_spec(s: Seq<char>) -> Seq<Seq<char>> {
    if s.len() == 0 {
        Seq::<Seq<char>>::empty()
    } else {
        let ends = s.last() == '\n';
        let body = if ends {
            s.drop_last()
        } else {
            s
        };
        let ps = split_chars(body, '\n');
        Seq::new(
            ps.len(),
            |i: int|
                expand_tabs(
                    if ends || i < ps.len() - 1 {
                        strip_cr(ps[i])
                    } else {
                        ps[i]
                    },
                ),
        )
    }
}

/// `l` (without a final `\r` when `strip` is set), with tabs expanded.
fn display_line(l: &str, strip: bool) -> (res: String)
    ensures
        res@ == expand_tabs(if strip {
            strip_cr(l@)
        } else {
            l@
        }),
{
    let cs = chars_of(l);
    let n = cs.len();
    let end = if strip && n > 0 && cs[n - 1] == '\r' {
        n - 1
    } else {
        n
    };
    let ghost line = cs@.subrange(0, end as int);
    assert(line =~= (if strip {
        strip_cr(l@)
    } else {
        l@
    }));
    let mut out = String::new();
    let mut k: usize = 0;
    assert(line.take(0) =~= seq![]);
    while k < end
        invariant
            k <= end <= n == cs@.len(),
            line == cs@.subrange(0, end as int),
            out@ == expand_tabs(line.take(k as int)),
        decreases end - k,
    {
        assert(line.take(k + 1).drop_last() =~= line.take(k as int));
        assert(line.take(k + 1).last() == cs@[k as int]);
        if cs[k] == '\t' {
            out.append("    ");
            proof {
                reveal_strlit("    ");
            }
        } else {
            push_char(&mut out, cs[k]);
        }
        k = k + 1;
    }
    assert(line.take(end as int) =~= line);
    out
}

/// The lines of a file's contents for the zoomed-in view, the bytes decoded
/// as `String::from_utf8_lossy` decodes them.
pub fn text_lines_of_bytes(data: &[u8]) -> (res: Vec<String>)
    ensures
        res@.map_values(|l: String| l@) == text_lines_spec(crate::scan::utf8_lossy(data@)),
{
    let text = crate::scan::lossy_string(data);
    text_lines(text.as_str())
}

/// The lines of a file's text for the zoomed-in view.
pub fn text_lines(text: &str) -> (res: Vec<String>)
    ensures
        res@.map_values(|l: String| l@) == text_lines_spec(text@),
{
    let cs = chars_of(text);
    let n = cs.len();
    let mut out: Vec<String> = Vec::new();
    if n == 0 {
        assert(out@.map_values(|l: String| l@) =~= text_lines_spec(text@));
        return out;
    }
    let ends = cs[n - 1] == '\n';
    let end = if ends {
        n - 1
    } else {
        n
    };
    let body = string_of(&cs, 0, end);
    assert(body@ =~= (if text@.last() == '\n' {
        text@.drop_last()
    } else {
        text@
    }));
    let pieces = split_string(body.as_str(), '\n');
    let ghost ps = pieces@.map_values(|x: String| x@);
    let mut k: usize = 0;
    while k < pieces.len()
        invariant
            k <= pieces@.len(),
            ps == pieces@.map_values(|x: String| x@),
            ps == split_chars(body@, '\n'),
            out@.len() == k,
            ends == (text@.last() == '\n'),
            forall|j: int|
                0 <= j < k ==> (#[trigger] out@[j])@ == expand_tabs(
                    if ends || j < ps.len() - 1 {
                        strip_cr(ps[j])
                    } else {
                        ps[j]
                    },
                ),
        decreases pieces.len() - k,
    {
        let strip = ends || k + 1 < pieces.len();
        let line = display_line(pieces[k].as_str(), strip);
        out.push(line);
        k = k + 1;
    }
    assert(out@.map_values(|l: String| l@) =~= text_lines_spec(text@));
    out
}

} // verus!
