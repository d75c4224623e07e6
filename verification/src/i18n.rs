//! User-facing text and language selection.
//!
//! The captions of the interface come from the translation catalogs (see
//! `catalog`): the language's own text, else the English one, else the
//! message id. The status line and inspector text, with their numbers and
//! paths, are put together here in both supported languages.

use vstd::prelude::*;
use crate::catalog::{caption, Catalogs};
use crate::text::{decimal, push_decimal};

verus! {

/// The languages the interface can be shown in.
#[derive(Clone, Copy, Debug, PartialEq, Eq, Structural)]
pub enum Language {
    English,
    SimplifiedChinese,
}

/// A string built from pieces.
fn build2(a: &str, b: &str) -> (res: String)
    ensures
        res@ == a@ + b@,
{
    let mut s = String::from_str(a);
    s.append(b);
    s
}

fn build3(a: &str, b: &str, c: &str) -> (res: String)
    ensures
        res@ == a@ + b@ + c@,
{
    let mut s = String::from_str(a);
    s.append(b);
    s.append(c);
    s
}

fn build4(a: &str, b: &str, c: &str, d: &str) -> (res: String)
    ensures
        res@ == a@ + b@ + c@ + d@,
{
    let mut s = String::from_str(a);
    s.append(b);
    s.append(c);
    s.append(d);
    s
}

fn build6(a: &str, b: &str, c: &str, d: &str, e: &str, f: &str) -> (res: String)
    ensures
        res@ == a@ + b@ + c@ + d@ + e@ + f@,
{
    let mut s = String::from_str(a);
    s.append(b);
    s.append(c);
    s.append(d);
    s.append(e);
    s.append(f);
    s
}

fn build5(a: &str, b: &str, c: &str, d: &str, e: &str) -> (res: String)
    ensures
        res@ == a@ + b@ + c@ + d@ + e@,
{
    let mut s = String::from_str(a);
    s.append(b);
    s.append(c);
    s.append(d);
    s.append(e);
    s
}

fn build7(a: &str, b: &str, c: &str, d: &str, e: &str, f: &str, g: &str) -> (res: String)
    ensures
        res@ == a@ + b@ + c@ + d@ + e@ + f@ + g@,
{
    let mut s = String::from_str(a);
    s.append(b);
    s.append(c);
    s.append(d);
    s.append(e);
    s.append(f);
    s.append(g);
    s
}

/// Lower case of an ASCII letter; every other character is kept.
pub open spec fn ascii_lower(c: char) -> char {
    if 'A' <= c && c <= 'Z' {
        ((c as u32) + 32) as char
    } else {
        c
    }
}

/// A language tag as it is compared: everything before the first `:`, `.`
/// or `@`, with `_` read as `-` and ASCII letters in lower case.
pub open spec fn tag_char(c: char) -> char {
    if c == '_' {
        '-'
    } else {
        ascii_lower(c)
    }
}

pub open spec fn is_tag_end(c: char) -> bool {
    c == ':' || c == '.' || c == '@'
}

/// Length of the part of a tag before its first `:`, `.` or `@`.
pub open spec fn tag_head_len(tag: Seq<char>) -> nat
    decreases tag.len(),
{
    if tag.len() == 0 || is_tag_end(tag[0]) {
        0
    } else {
        1 + tag_head_len(tag.drop_first())
    }
}

/// The normalized head of a tag.
pub open spec fn normalized_tag(tag: Seq<char>) -> Seq<char> {
    tag.take(tag_head_len(tag) as int).map_values(|c: char| tag_char(c))
}

/// `t` is `code` itself or starts with `code` followed by `-`.
pub open spec fn tag_is(t: Seq<char>, code: Seq<char>) -> bool {
    t == code || (t.len() > code.len() && t.take(code.len() as int) == code && t[code.len() as int] == '-')
}

/// The language a locale or language tag asks for, if it is one we have.
pub open spec fn language_for_tag(tag: Seq<char>) -> Option<Language> {
    let t = normalized_tag(tag);
    if tag_is(t, seq!['z', 'h']) {
        Some(Language::SimplifiedChinese)
    } else if tag_is(t, seq!['e', 'n']) {
        Some(Language::English)
    } else {
        None
    }
}

proof fn lemma_tag_head_len(tag: Seq<char>)
    ensures
        tag_head_len(tag) <= tag.len(),
        forall|i: int| 0 <= i < tag_head_len(tag) ==> !is_tag_end(#[trigger] tag[i]),
        tag_head_len(tag) < tag.len() ==> is_tag_end(tag[tag_head_len(tag) as int]),
    decreases tag.len(),
{
    if tag.len() > 0 && !is_tag_end(tag[0]) {
        lemma_tag_head_len(tag.drop_first());
        assert forall|i: int| 0 <= i < tag_head_len(tag) implies !is_tag_end(#[trigger] tag[i]) by {
            if i > 0 {
                assert(tag[i] == tag.drop_first()[i - 1]);
            }
        }
    }
}

proof fn lemma_tag_head_unique(tag: Seq<char>, k: nat)
    requires
        k <= tag.len(),
        forall|i: int| 0 <= i < k ==> !is_tag_end(#[trigger] tag[i]),
        k < tag.len() ==> is_tag_end(tag[k as int]),
    ensures
        tag_head_len(tag) == k,
    decreases tag.len(),
{
    if k > 0 {
        assert(!is_tag_end(tag[0]));
        assert forall|i: int| 0 <= i < (k - 1) as nat implies !is_tag_end(#[trigger] tag.drop_first()[i]) by {
            assert(tag.drop_first()[i] == tag[i + 1]);
        }
        if (k - 1) < tag.drop_first().len() {
            assert(tag.drop_first()[k - 1] == tag[k as int]);
        }
        lemma_tag_head_unique(tag.drop_first(), (k - 1) as nat);
    }
}

/// Lower-cased tag character of `c`, computed.
fn tag_char_exec(c: char) -> (res: char)
    ensures
        res == tag_char(c),
{
    if c == '_' {
        '-'
    } else if 'A' <= c && c <= 'Z' {
        let code = c as u32 + 32;
        proof {
            assert(0x41 <= code <= 0x7A);
        }
        char_from_ascii(code)
    } else {
        c
    }
}

/// The character with an ASCII code.
fn char_from_ascii(code: u32) -> (res: char)
    requires
        code < 128,
    ensures
        res == code as char,
{
    let b = code as u8;
    b as char
}

/// Whole days in a span of seconds, rounded toward zero like integer division.
pub open spec fn days_of(seconds: int) -> int {
    if seconds >= 0 {
        seconds / 86400
    } else {
        -((-seconds) / 86400)
    }
}

/// How long ago something changed, in words.
pub open spec fn age_text(lang: Language, seconds: int) -> Seq<char> {
    let d = days_of(seconds);
    match lang {
        Language::English => if d < 1 {
            "today"@
        } else if d == 1 {
            "yesterday"@
        } else if d < 60 {
            decimal(d as nat) + " days ago"@
        } else if d < 730 {
            decimal((d / 30) as nat) + " months ago"@
        } else {
            decimal((d / 365) as nat) + " years ago"@
        },
        Language::SimplifiedChinese => if d < 1 {
            "今天"@
        } else if d == 1 {
            "昨天"@
        } else if d < 60 {
            decimal(d as nat) + " 天前"@
        } else if d < 730 {
            decimal((d / 30) as nat) + " 个月前"@
        } else {
            decimal((d / 365) as nat) + " 年前"@
        },
    }
}

/// `n / d` rounded to the nearest integer, halves to the even neighbour.
pub open spec fn div_round_even(n: nat, d: nat) -> nat {
    let q = n / d;
    let r = n % d;
    if 2 * r < d {
        q
    } else if 2 * r > d {
        q + 1
    } else if q % 2 == 0 {
        q
    } else {
        q + 1
    }
}

pub open spec fn pow2(k: nat) -> nat
    decreases k,
{
    if k == 0 {
        1
    } else {
        2 * pow2((k - 1) as nat)
    }
}

/// How many low bits a 64-bit float drops of `b`: its precision is 53 bits.
pub open spec fn float_shift(b: nat) -> nat
    decreases b,
{
    if b == 0 || b < pow2(53) {
        0
    } else {
        1 + float_shift(b / 2)
    }
}

/// `b` as the nearest 64-bit float, halves to even (`b as f64`).
pub open spec fn as_float(b: nat) -> nat {
    let e = float_shift(b);
    div_round_even(b, pow2(e)) * pow2(e)
}

/// `b / 2^k` with one decimal, as `{:.1}` prints the float quotient.
pub open spec fn tenths_text(b: nat, k: nat) -> Seq<char> {
    let tenths = div_round_even(10 * as_float(b), pow2(k));
    decimal(tenths / 10) + "."@ + seq![crate::text::digit_char(tenths % 10)]
}

/// A file size in words.
pub open spec fn bytes_text(lang: Language, b: nat) -> Seq<char> {
    if b >= pow2(30) {
        tenths_text(b, 30) + " GB"@
    } else if b >= pow2(20) {
        tenths_text(b, 20) + " MB"@
    } else if b >= pow2(10) {
        tenths_text(b, 10) + " KB"@
    } else {
        match lang {
            Language::English => decimal(b) + " bytes"@,
            Language::SimplifiedChinese => decimal(b) + " 字节"@,
        }
    }
}

/// The text of [`Language::scanning`].
pub open spec fn scanning_text(lang: Language, path: Seq<char>) -> Seq<char> {
    match lang {
        Language::English => "Scanning "@ + path + " ..."@,
        Language::SimplifiedChinese => "正在扫描 "@ + path + "……"@,
    }
}

/// The text of [`Language::reading_history`].
pub open spec fn reading_history_text(lang: Language) -> Seq<char> {
    match lang {
        Language::English => "Reading git history ..."@,
        Language::SimplifiedChinese => "正在读取 Git 历史……"@,
    }
}

/// The text of [`Language::search_matches`].
pub open spec fn search_matches_text(lang: Language, count: Seq<char>, query: Seq<char>) -> Seq<char> {
    match lang {
        Language::English => count + " matches for \""@ + query
            + "\". Press Enter to fly to the next one."@,
        Language::SimplifiedChinese => "“"@ + query + "”有 "@ + count
            + " 个匹配项。按 Enter 跳转到下一个。"@,
    }
}

/// The controls help: the eight help messages, one per line.
pub open spec fn help_text(lang: Language, c: Catalogs) -> Seq<char> {
    caption(lang, "help-1"@, c) + "\n"@ + caption(lang, "help-2"@, c) + "\n"@ + caption(lang, "help-3"@, c)
        + "\n"@ + caption(lang, "help-4"@, c) + "\n"@ + caption(lang, "help-5"@, c) + "\n"@ + caption(
        lang,
        "help-6"@,
        c,
    ) + "\n"@ + caption(lang, "help-7"@, c) + "\n"@ + caption(lang, "help-8"@, c)
}

/// The text of [`Language::scanned`].
pub open spec fn scanned_text(lang: Language, summary: Seq<char>, seconds: Seq<char>, used_git: bool) -> Seq<char> {
    match lang {
        Language::English => summary + ", scanned in "@ + seconds + "s ("@ + (if used_git {
            "ignore rules from git"@
        } else {
            "no git: read .gitignore files"@
        }) + ")"@,
        Language::SimplifiedChinese => summary + "，扫描耗时 "@ + seconds + " 秒（"@ + (if used_git {
            "使用 Git 忽略规则"@
        } else {
            "无 Git：读取 .gitignore 文件"@
        }) + "）"@,
    }
}

/// The text of [`Language::scan_failed`].
pub open spec fn scan_failed_text(lang: Language, error: Seq<char>) -> Seq<char> {
    match lang {
        Language::English => "Could not scan: "@ + error,
        Language::SimplifiedChinese => "扫描失败："@ + error,
    }
}

/// The text of [`Language::expanded_ignored`].
pub open spec fn expanded_ignored_text(lang: Language, path: Seq<char>, count: Seq<char>) -> Seq<char> {
    match lang {
        Language::English => "Read ignored "@ + path + ": "@ + count + " files"@,
        Language::SimplifiedChinese => "已读取忽略项 "@ + path + "："@ + count + " 个文件"@,
    }
}

/// The text of [`Language::history_failed`].
pub open spec fn history_failed_text(lang: Language, error: Seq<char>) -> Seq<char> {
    match lang {
        Language::English => "No git history: "@ + error,
        Language::SimplifiedChinese => "无法读取 Git 历史："@ + error,
    }
}

/// The text of [`Language::no_folder`].
pub open spec fn no_folder_text(lang: Language) -> Seq<char> {
    match lang {
        Language::English => "No folder opened"@,
        Language::SimplifiedChinese => "尚未打开文件夹"@,
    }
}

/// The text of [`Language::folder_details`].
pub open spec fn folder_details_text(lang: Language, files: Seq<char>, lines: Seq<char>, bytes: Seq<char>, children: nat) -> Seq<char> {
    match lang {
        Language::English => "Folder\n"@ + files + " files\n"@ + lines + " lines\n"@
            + bytes + "\n"@ + decimal(children) + " direct children"@,
        Language::SimplifiedChinese => "文件夹\n"@ + files + " 个文件\n"@ + lines
            + " 行\n"@ + bytes + "\n"@ + decimal(children) + " 个直接子项"@,
    }
}

/// The text of [`Language::text_file_details`].
pub open spec fn text_file_details_text(lang: Language, lines: Seq<char>, comments: Seq<char>, bytes: Seq<char>) -> Seq<char> {
    match lang {
        Language::English => "Text file\n"@ + lines + " lines ("@ + comments
            + " comment lines)\n"@ + bytes,
        Language::SimplifiedChinese => "文本文件\n"@ + lines + " 行（"@ + comments
            + " 行注释）\n"@ + bytes,
    }
}

/// The text of [`Language::binary_details`].
pub open spec fn binary_details_text(lang: Language, bytes: Seq<char>) -> Seq<char> {
    match lang {
        Language::English => "Binary or very large file\n"@ + bytes,
        Language::SimplifiedChinese => "二进制文件或超大文件\n"@ + bytes,
    }
}

/// The text of [`Language::ignored_details`].
pub open spec fn ignored_details_text(lang: Language, directory: bool, loading: bool) -> Seq<char> {
    match lang {
        Language::English => "Ignored "@ + (if directory {
            "folder"@
        } else {
            "file"@
        }) + "\n"@ + (if loading {
            "Reading it now ..."@
        } else {
            "Not read yet. Click it to read it."@
        }),
        Language::SimplifiedChinese => "已忽略的"@ + (if directory {
            "文件夹"@
        } else {
            "文件"@
        }) + "\n"@ + (if loading {
            "正在读取……"@
        } else {
            "尚未读取。点击即可读取。"@
        }),
    }
}

/// The text of [`Language::git_details`].
pub open spec fn git_details_text(lang: Language, commits: Seq<char>, age: Seq<char>) -> Seq<char> {
    match lang {
        Language::English => "\n\nGit: "@ + commits + " commits\nlast changed "@ + age,
        Language::SimplifiedChinese => "\n\nGit："@ + commits + " 个提交\n最后更改于"@ + age,
    }
}

/// The text of [`Language::no_commits`].
pub open spec fn no_commits_text(lang: Language) -> Seq<char> {
    match lang {
        Language::English => "\n\nGit: no commits in history"@,
        Language::SimplifiedChinese => "\n\nGit：历史中没有提交"@,
    }
}

/// The text of [`Language::matched_gitignore`].
pub open spec fn matched_gitignore_text(lang: Language) -> Seq<char> {
    match lang {
        Language::English => "\n\nMatched by .gitignore"@,
        Language::SimplifiedChinese => "\n\n匹配 .gitignore 规则"@,
    }
}

/// The text of [`Language::summary`].
pub open spec fn summary_text(lang: Language, files: Seq<char>, lines: Seq<char>, commits: Option<Seq<char>>) -> Seq<char> {
    match (lang, commits) {
        (Language::English, Some(c)) => files + " files, "@ + lines + " lines, "@ + c
            + " commits of history"@,
        (Language::English, None) => files + " files, "@ + lines + " lines"@,
        (Language::SimplifiedChinese, Some(c)) => files + " 个文件，"@ + lines + " 行，"@
            + c + " 个历史提交"@,
        (Language::SimplifiedChinese, None) => files + " 个文件，"@ + lines + " 行"@,
    }
}

fn round_even_div(n: u128, d: u128) -> (res: u128)
    requires
        d > 0,
        n / d < u128::MAX,
    ensures
        res == div_round_even(n as nat, d as nat),
{
    let q = n / d;
    let r = n % d;
    if r < d - r {
        q
    } else if r > d - r {
        q + 1
    } else if q % 2 == 0 {
        q
    } else {
        q + 1
    }
}

proof fn lemma_round_even_bound(n: nat, d: nat)
    requires
        d > 0,
    ensures
        div_round_even(n, d) <= n / d + 1,
        div_round_even(n, d) * d <= n + d,
{
    let q = n / d;
    assert(q * d <= n) by (nonlinear_arith)
        requires
            d > 0,
            q == n / d,
    ;
    assert((q + 1) * d == q * d + d) by (nonlinear_arith);
    if div_round_even(n, d) == q {
        assert(q * d <= n + d);
    }
}

/// `b as f64` as an integer: the nearest value with 53 significant bits.
fn float_value(b: u64) -> (res: u128)
    ensures
        res == as_float(b as nat),
        res <= 2 * (b as nat) + 1,
{
    let mut m: u64 = b;
    let mut e: u32 = 0;
    let mut p: u128 = 1;
    proof {
        reveal_with_fuel(pow2, 54);
        assert(pow2(53) == 9007199254740992nat);
    }
    while m >= 9007199254740992u64
        invariant
            float_shift(b as nat) == e + float_shift(m as nat),
            p == pow2(e as nat),
            m as nat * p <= b as nat,
            m >= 1 || b == 0,
            p >= 1,
            pow2(53) == 9007199254740992nat,
            e <= 64,
        decreases m,
    {
        proof {
            assert(float_shift(m as nat) == 1 + float_shift((m / 2) as nat));
            assert((m / 2) as nat * (2 * p) <= m as nat * p) by (nonlinear_arith)
                requires
                    p >= 1,
            ;
            assert(p <= b as nat) by (nonlinear_arith)
                requires
                    m as nat * p <= b as nat,
                    m >= 1,
            ;
            if e == 64 {
                assert(pow2(64) == 18446744073709551616nat) by {
                    reveal_with_fuel(pow2, 65);
                }
            }
        }
        m = m / 2;
        p = p * 2;
        e = e + 1;
        proof {
            assert(e <= 64) by {
                if e > 64 {
                    assert(pow2(64) == 18446744073709551616nat) by {
                        reveal_with_fuel(pow2, 65);
                    }
                    lemma_pow2_mono(64, (e - 1) as nat);
                }
            }
        }
    }
    proof {
        assert(float_shift(m as nat) == 0);
        assert(p >= 1) by {
            lemma_pow2_pos(e as nat);
        }
        assert(p <= b as nat || b == 0) by (nonlinear_arith)
            requires
                m as nat * p <= b as nat,
                m >= 1 || b == 0,
        ;
        lemma_round_even_bound(b as nat, p as nat);
    }
    let r = round_even_div(b as u128, p);
    r * p
}

proof fn lemma_pow2_pos(k: nat)
    ensures
        pow2(k) >= 1,
    decreases k,
{
    if k > 0 {
        lemma_pow2_pos((k - 1) as nat);
    }
}

proof fn lemma_pow2_mono(a: nat, b: nat)
    requires
        a <= b,
    ensures
        pow2(a) <= pow2(b),
    decreases b,
{
    if a < b {
        lemma_pow2_mono(a, (b - 1) as nat);
        lemma_pow2_pos((b - 1) as nat);
    }
}

/// `b / 2^k` with one decimal, for a unit of 2^k bytes.
fn tenths_string(b: u64, k: u32, d: u128) -> (res: String)
    requires
        k == 10 || k == 20 || k == 30,
        d == pow2(k as nat),
    ensures
        res@ == tenths_text(b as nat, k as nat),
{
    let f = float_value(b);
    proof {
        reveal_with_fuel(pow2, 11);
        lemma_pow2_mono(10, k as nat);
        assert(pow2(10) == 1024);
    }
    let n = 10 * f;
    proof {
        assert(n / d <= n) by (nonlinear_arith)
            requires
                d >= 1,
        ;
        lemma_round_even_bound(n as nat, d as nat);
        assert(n / d <= n / 1024) by {
            vstd::arithmetic::div_mod::lemma_div_is_ordered_by_denominator(n as int, 1024, d as int);
        }
    }
    let t = round_even_div(n, d);
    let whole = t / 10;
    let digit = t % 10;
    let mut s = String::new();
    push_decimal(&mut s, whole as u64);
    s.append(".");
    s.append(crate::text::digit_str(digit as u64));
    proof {
        reveal_strlit(".");
    }
    s
}

impl Language {
    /// Language at a position of the language selector; anything but 1 is English.
    pub open spec fn at_index(index: usize) -> Self {
        if index == 1 {
            Language::SimplifiedChinese
        } else {
            Language::English
        }
    }

    /// Language for a position in the language selector; anything but 1 is English.
    pub fn from_index(index: usize) -> (res: Self)
        ensures
            res == Self::at_index(index),
    {
        match index {
            1 => Language::SimplifiedChinese,
            _ => Language::English,
        }
    }

    pub open spec fn index_spec(self) -> usize {
        match self {
            Language::English => 0,
            Language::SimplifiedChinese => 1,
        }
    }

    /// Position of the language in the language selector.
    pub fn index(self) -> (res: usize)
        ensures
            res == self.index_spec(),
    {
        match self {
            Language::English => 0,
            Language::SimplifiedChinese => 1,
        }
    }

    /// The selector's position of a language gives the language back.
    pub proof fn lemma_index_round_trip(self)
        ensures
            Self::at_index(self.index_spec()) == self,
    {
    }

    /// The language a tag such as `zh_CN.UTF-8`, `zh-Hans-CN` or `en-US`
    /// asks for, or `None` when it is neither Chinese nor English.
    pub fn from_language_tag(tag: &str) -> (res: Option<Self>)
        ensures
            res == language_for_tag(tag@),
    {
        let n = tag.unicode_len();
        let mut k: usize = 0;
        while k < n
            invariant
                k <= n,
                n == tag@.len(),
                forall|i: int| 0 <= i < k ==> !is_tag_end(#[trigger] tag@[i]),
            ensures
                k <= n,
                forall|i: int| 0 <= i < k ==> !is_tag_end(#[trigger] tag@[i]),
                k < n ==> is_tag_end(tag@[k as int]),
            decreases n - k,
        {
            let c = tag.get_char(k);
            if c == ':' || c == '.' || c == '@' {
                break;
            }
            k = k + 1;
        }
        proof {
            lemma_tag_head_unique(tag@, k as nat);
        }
        let ghost t = normalized_tag(tag@);
        assert(t.len() == k);
        // Compare the normalized head against "zh" and "en".
        let mut c0 = ' ';
        let mut c1 = ' ';
        let mut c2 = ' ';
        if k >= 1 {
            c0 = tag_char_exec(tag.get_char(0));
        }
        if k >= 2 {
            c1 = tag_char_exec(tag.get_char(1));
        }
        if k >= 3 {
            c2 = tag_char_exec(tag.get_char(2));
        }
        assert(k >= 1 ==> c0 == t[0]);
        assert(k >= 2 ==> c1 == t[1]);
        assert(k >= 3 ==> c2 == t[2]);
        let headed = k == 2 || (k > 2 && c2 == '-');
        if headed && c0 == 'z' && c1 == 'h' {
            assert(tag_is(t, seq!['z', 'h'])) by {
                if k == 2 {
                    assert(t =~= seq!['z', 'h']);
                } else {
                    assert(t.take(2) =~= seq!['z', 'h']);
                }
            }
            Some(Language::SimplifiedChinese)
        } else if headed && c0 == 'e' && c1 == 'n' {
            assert(!tag_is(t, seq!['z', 'h'])) by {
                if t.len() >= 1 {
                    assert(t[0] != seq!['z', 'h'][0]);
                }
            }
            assert(tag_is(t, seq!['e', 'n'])) by {
                if k == 2 {
                    assert(t =~= seq!['e', 'n']);
                } else {
                    assert(t.take(2) =~= seq!['e', 'n']);
                }
            }
            Some(Language::English)
        } else {
            assert(!tag_is(t, seq!['z', 'h'])) by {
                if t =~= seq!['z', 'h'] {
                    assert(t[0] == 'z' && t[1] == 'h');
                }
                if t.len() > 2 && t.take(2) == seq!['z', 'h'] {
                    assert(t.take(2)[0] == t[0] && t.take(2)[1] == t[1]);
                }
            }
            assert(!tag_is(t, seq!['e', 'n'])) by {
                if t =~= seq!['e', 'n'] {
                    assert(t[0] == 'e' && t[1] == 'n');
                }
                if t.len() > 2 && t.take(2) == seq!['e', 'n'] {
                    assert(t.take(2)[0] == t[0] && t.take(2)[1] == t[1]);
                }
            }
            None
        }
    }

    /// Placeholder of the search box, from the catalogs.
    pub fn search_placeholder(self, catalogs: &Catalogs) -> (res: String)
        ensures
            res@ == caption(self, "search-placeholder"@, *catalogs),
    {
        catalogs.text(self, "search-placeholder")
    }

    /// Entries of the color mode selector, in selector order, from the
    /// catalogs.
    pub fn color_modes(self, catalogs: &Catalogs) -> (res: Vec<String>)
        ensures
            res@.len() == 3,
            res@[0]@ == caption(self, "color-file-type"@, *catalogs),
            res@[1]@ == caption(self, "color-recent"@, *catalogs),
            res@[2]@ == caption(self, "color-churn"@, *catalogs),
    {
        let mut res = Vec::new();
        res.push(catalogs.text(self, "color-file-type"));
        res.push(catalogs.text(self, "color-recent"));
        res.push(catalogs.text(self, "color-churn"));
        res
    }

    /// Entries of the detail level selector, in selector order, from the
    /// catalogs.
    pub fn detail_levels(self, catalogs: &Catalogs) -> (res: Vec<String>)
        ensures
            res@.len() == 4,
            res@[0]@ == caption(self, "detail-normal"@, *catalogs),
            res@[1]@ == caption(self, "detail-high"@, *catalogs),
            res@[2]@ == caption(self, "detail-ultra"@, *catalogs),
            res@[3]@ == caption(self, "detail-custom"@, *catalogs),
    {
        let mut res = Vec::new();
        res.push(catalogs.text(self, "detail-normal"));
        res.push(catalogs.text(self, "detail-high"));
        res.push(catalogs.text(self, "detail-ultra"));
        res.push(catalogs.text(self, "detail-custom"));
        res
    }

    /// Names of the languages in the language selector, each in its own language.
    pub fn language_names() -> (res: [&'static str; 2])
        ensures
            res[0]@ == "English"@,
            res[1]@ == "简体中文"@,
    {
        ["English", "简体中文"]
    }

    /// Caption of the button that fits the whole map in view, from the catalogs.
    pub fn fit(self, catalogs: &Catalogs) -> (res: String)
        ensures
            res@ == caption(self, "fit"@, *catalogs),
    {
        catalogs.text(self, "fit")
    }

    /// Caption of the checkbox that shows ignored entries, from the catalogs.
    pub fn show_ignored(self, catalogs: &Catalogs) -> (res: String)
        ensures
            res@ == caption(self, "show-ignored"@, *catalogs),
    {
        catalogs.text(self, "show-ignored")
    }

    /// Heading of the inspector panel, from the catalogs.
    pub fn inspector(self, catalogs: &Catalogs) -> (res: String)
        ensures
            res@ == caption(self, "inspector"@, *catalogs),
    {
        catalogs.text(self, "inspector")
    }

    /// Inspector title before anything is selected, from the catalogs.
    pub fn select_hint(self, catalogs: &Catalogs) -> (res: String)
        ensures
            res@ == caption(self, "select-hint"@, *catalogs),
    {
        catalogs.text(self, "select-hint")
    }

    /// The controls help shown at the bottom of the inspector: its eight
    /// lines, from the catalogs, one under the other.
    pub fn help(self, catalogs: &Catalogs) -> (res: String)
        ensures
            res@ == help_text(self, *catalogs),
    {
        let mut res = catalogs.text(self, "help-1");
        res.append("\n");
        res.append(catalogs.text(self, "help-2").as_str());
        res.append("\n");
        res.append(catalogs.text(self, "help-3").as_str());
        res.append("\n");
        res.append(catalogs.text(self, "help-4").as_str());
        res.append("\n");
        res.append(catalogs.text(self, "help-5").as_str());
        res.append("\n");
        res.append(catalogs.text(self, "help-6").as_str());
        res.append("\n");
        res.append(catalogs.text(self, "help-7").as_str());
        res.append("\n");
        res.append(catalogs.text(self, "help-8").as_str());
        res
    }

    /// Heading of the custom detail panel, from the catalogs.
    pub fn custom_detail(self, catalogs: &Catalogs) -> (res: String)
        ensures
            res@ == caption(self, "custom-detail"@, *catalogs),
    {
        catalogs.text(self, "custom-detail")
    }

    /// Caption of the geometry detail slider, from the catalogs.
    pub fn geometry_detail(self, catalogs: &Catalogs) -> (res: String)
        ensures
            res@ == caption(self, "geometry-detail"@, *catalogs),
    {
        catalogs.text(self, "geometry-detail")
    }

    /// Caption of the text detail slider, from the catalogs.
    pub fn text_detail(self, catalogs: &Catalogs) -> (res: String)
        ensures
            res@ == caption(self, "text-detail"@, *catalogs),
    {
        catalogs.text(self, "text-detail")
    }

    /// Caption of the render budget slider, from the catalogs.
    pub fn render_budget(self, catalogs: &Catalogs) -> (res: String)
        ensures
            res@ == caption(self, "render-budget"@, *catalogs),
    {
        catalogs.text(self, "render-budget")
    }

    /// Status while a folder is being scanned.
    pub fn scanning(self, path: &str) -> (res: String)
        ensures
            res@ == scanning_text(self, path@),
    {
        match self {
            Language::English => build3("Scanning ", path, " ..."),
            Language::SimplifiedChinese => build3("正在扫描 ", path, "……"),
        }
    }

    /// Status while git history is read.
    pub fn reading_history(self) -> (res: String)
        ensures
            res@ == reading_history_text(self),
    {
        match self {
            Language::English => String::from_str("Reading git history ..."),
            Language::SimplifiedChinese => String::from_str("正在读取 Git 历史……"),
        }
    }

    /// Status after a search: how many matches `query` has.
    pub fn search_matches(self, count: &str, query: &str) -> (res: String)
        ensures
            res@ == search_matches_text(self, count@, query@),
    {
        match self {
            Language::English => build3(
                count,
                " matches for \"",
                &build2(query, "\". Press Enter to fly to the next one."),
            ),
            Language::SimplifiedChinese => build5(
                "“",
                query,
                "”有 ",
                count,
                " 个匹配项。按 Enter 跳转到下一个。",
            ),
        }
    }

    /// Status line of a scanned project: files, lines and, once history is
    /// read, the commits it covers.
    pub fn summary(self, files: &str, lines: &str, commits: Option<&str>) -> (res: String)
        ensures
            res@ == summary_text(self, files@, lines@, match commits {
                Some(c) => Some(c@),
                None => None,
            }),
    {
        match (self, commits) {
            (Language::English, Some(c)) => build6(
                files,
                " files, ",
                lines,
                " lines, ",
                c,
                " commits of history"),
            (Language::English, None) => build4(files, " files, ", lines, " lines"),
            (Language::SimplifiedChinese, Some(c)) => build6(
                files,
                " 个文件，",
                lines,
                " 行，",
                c,
                " 个历史提交"),
            (Language::SimplifiedChinese, None) => build4(files, " 个文件，", lines, " 行"),
        }
    }

    /// Status after a scan: the summary, the time the scan took (`seconds`,
    /// already written out) and where the ignore rules came from.
    pub fn scanned(self, summary: &str, seconds: &str, used_git: bool) -> (res: String)
        ensures
            res@ == scanned_text(self, summary@, seconds@, used_git),
    {
        match self {
            Language::English => {
                let from = if used_git { "ignore rules from git" } else { "no git: read .gitignore files" };
                build6(summary, ", scanned in ", seconds, "s (", from, ")")
            },
            Language::SimplifiedChinese => {
                let from = if used_git { "使用 Git 忽略规则" } else { "无 Git：读取 .gitignore 文件" };
                build6(summary, "，扫描耗时 ", seconds, " 秒（", from, "）")
            },
        }
    }

    /// Status when a scan failed.
    pub fn scan_failed(self, error: &str) -> (res: String)
        ensures
            res@ == scan_failed_text(self, error@),
    {
        match self {
            Language::English => build2("Could not scan: ", error),
            Language::SimplifiedChinese => build2("扫描失败：", error),
        }
    }

    /// Status after an ignored folder was read on request.
    pub fn expanded_ignored(self, path: &str, count: &str) -> (res: String)
        ensures
            res@ == expanded_ignored_text(self, path@, count@),
    {
        match self {
            Language::English => build5("Read ignored ", path, ": ", count, " files"),
            Language::SimplifiedChinese => build5("已读取忽略项 ", path, "：", count, " 个文件"),
        }
    }

    /// Status when git history could not be read.
    pub fn history_failed(self, error: &str) -> (res: String)
        ensures
            res@ == history_failed_text(self, error@),
    {
        match self {
            Language::English => build2("No git history: ", error),
            Language::SimplifiedChinese => build2("无法读取 Git 历史：", error),
        }
    }

    /// Shown while no folder is open.
    pub fn no_folder(self) -> (res: &'static str)
        ensures
            res@ == no_folder_text(self),
    {
        match self {
            Language::English => "No folder opened",
            Language::SimplifiedChinese => "尚未打开文件夹",
        }
    }

    /// Inspector details of a folder.
    pub fn folder_details(self, files: &str, lines: &str, bytes: &str, children: usize) -> (res:
        String)
        ensures
            res@ == folder_details_text(self, files@, lines@, bytes@, children as nat),
    {
        let mut s = match self {
            Language::English => build7("Folder\n", files, " files\n", lines, " lines\n", bytes, "\n"),
            Language::SimplifiedChinese => build7("文件夹\n", files, " 个文件\n", lines, " 行\n", bytes, "\n"),
        };
        push_decimal(&mut s, children as u64);
        match self {
            Language::English => s.append(" direct children"),
            Language::SimplifiedChinese => s.append(" 个直接子项"),
        }
        s
    }

    /// Inspector details of a text file.
    pub fn text_file_details(self, lines: &str, comments: &str, bytes: &str) -> (res: String)
        ensures
            res@ == text_file_details_text(self, lines@, comments@, bytes@),
    {
        match self {
            Language::English => build6("Text file\n", lines, " lines (", comments, " comment lines)\n", bytes),
            Language::SimplifiedChinese => build6("文本文件\n", lines, " 行（", comments, " 行注释）\n", bytes),
        }
    }

    /// Inspector details of a binary or very large file.
    pub fn binary_details(self, bytes: &str) -> (res: String)
        ensures
            res@ == binary_details_text(self, bytes@),
    {
        match self {
            Language::English => build2("Binary or very large file\n", bytes),
            Language::SimplifiedChinese => build2("二进制文件或超大文件\n", bytes),
        }
    }

    /// Inspector details of an ignored entry that has not been read.
    pub fn ignored_details(self, directory: bool, loading: bool) -> (res: String)
        ensures
            res@ == ignored_details_text(self, directory, loading),
    {
        match self {
            Language::English => {
                let what = if directory { "folder" } else { "file" };
                let state = if loading { "Reading it now ..." } else { "Not read yet. Click it to read it." };
                build4("Ignored ", what, "\n", state)
            },
            Language::SimplifiedChinese => {
                let what = if directory { "文件夹" } else { "文件" };
                let state = if loading { "正在读取……" } else { "尚未读取。点击即可读取。" };
                build4("已忽略的", what, "\n", state)
            },
        }
    }

    /// Inspector lines about the git activity of an entry.
    pub fn git_details(self, commits: &str, age: &str) -> (res: String)
        ensures
            res@ == git_details_text(self, commits@, age@),
    {
        match self {
            Language::English => build4("\n\nGit: ", commits, " commits\nlast changed ", age),
            Language::SimplifiedChinese => build4("\n\nGit：", commits, " 个提交\n最后更改于", age),
        }
    }

    /// Inspector line for an entry git never touched.
    pub fn no_commits(self) -> (res: &'static str)
        ensures
            res@ == no_commits_text(self),
    {
        match self {
            Language::English => "\n\nGit: no commits in history",
            Language::SimplifiedChinese => "\n\nGit：历史中没有提交",
        }
    }

    /// Inspector line for an entry read from an ignored folder.
    pub fn matched_gitignore(self) -> (res: &'static str)
        ensures
            res@ == matched_gitignore_text(self),
    {
        match self {
            Language::English => "\n\nMatched by .gitignore",
            Language::SimplifiedChinese => "\n\n匹配 .gitignore 规则",
        }
    }

    /// Label suffix of an ignored entry that is being read.
    pub fn reading_suffix(self) -> (res: &'static str)
        ensures
            res@ == (match self {
                Language::English => "reading..."@,
                Language::SimplifiedChinese => "正在读取……"@,
            }),
    {
        match self {
            Language::English => "reading...",
            Language::SimplifiedChinese => "正在读取……",
        }
    }

    /// Label suffix of an ignored entry.
    pub fn ignored_suffix(self) -> (res: &'static str)
        ensures
            res@ == (match self {
                Language::English => "ignored"@,
                Language::SimplifiedChinese => "已忽略"@,
            }),
    {
        match self {
            Language::English => "ignored",
            Language::SimplifiedChinese => "已忽略",
        }
    }

    /// How long ago something changed, given the seconds since.
    pub fn age(self, seconds: i64) -> (res: String)
        ensures
            res@ == age_text(self, seconds as int),
    {
        if seconds < 86400 {
            proof {
                if seconds < 0 {
                    assert((-(seconds as int)) / 86400 >= 0);
                }
                assert(days_of(seconds as int) < 1);
            }
            return match self {
                Language::English => String::from_str("today"),
                Language::SimplifiedChinese => String::from_str("今天"),
            };
        }
        let days = (seconds as u64) / 86400;
        assert(days as int == days_of(seconds as int));
        if days == 1 {
            return match self {
                Language::English => String::from_str("yesterday"),
                Language::SimplifiedChinese => String::from_str("昨天"),
            };
        }
        let (n, unit) = if days < 60 {
            (days, match self {
                Language::English => " days ago",
                Language::SimplifiedChinese => " 天前",
            })
        } else if days < 730 {
            (days / 30, match self {
                Language::English => " months ago",
                Language::SimplifiedChinese => " 个月前",
            })
        } else {
            (days / 365, match self {
                Language::English => " years ago",
                Language::SimplifiedChinese => " 年前",
            })
        };
        let mut s = String::new();
        push_decimal(&mut s, n);
        s.append(unit);
        s
    }

    /// A file size for people: bytes below 1 KB, else KB, MB or GB with one decimal.
    pub fn bytes(self, bytes: u64) -> (res: String)
        ensures
            res@ == bytes_text(self, bytes as nat),
    {
        proof {
            reveal_with_fuel(pow2, 31);
            assert(pow2(10) == 1024 && pow2(20) == 1048576 && pow2(30) == 1073741824);
        }
        if bytes >= 1073741824 {
            let mut s = tenths_string(bytes, 30, 1073741824);
            s.append(" GB");
            s
        } else if bytes >= 1048576 {
            let mut s = tenths_string(bytes, 20, 1048576);
            s.append(" MB");
            s
        } else if bytes >= 1024 {
            let mut s = tenths_string(bytes, 10, 1024);
            s.append(" KB");
            s
        } else {
            let mut s = String::new();
            push_decimal(&mut s, bytes);
            match self {
                Language::English => s.append(" bytes"),
                Language::SimplifiedChinese => s.append(" 字节"),
            }
            s
        }
    }
}

} // verus!
