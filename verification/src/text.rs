//! Decimal rendering of integers, as the status bar and inspector show them.

use vstd::prelude::*;
use vstd::std_specs::iter::IteratorSpec;

verus! {

/// The character of one decimal digit.
pub open spec fn digit_char(d: nat) -> char {
    if d == 0 {
        '0'
    } else if d == 1 {
        '1'
    } else if d == 2 {
        '2'
    } else if d == 3 {
        '3'
    } else if d == 4 {
        '4'
    } else if d == 5 {
        '5'
    } else if d == 6 {
        '6'
    } else if d == 7 {
        '7'
    } else if d == 8 {
        '8'
    } else {
        '9'
    }
}

/// Decimal digits of `n`, most significant first, no leading zeros.
pub open spec fn decimal(n: nat) -> Seq<char>
    decreases n,
{
    if n < 10 {
        seq![digit_char(n)]
    } else {
        decimal(n / 10).push(digit_char(n % 10))
    }
}

/// The digits of `ds` up to position `k`, with a comma in front of every
/// digit that starts a group of three counted from the right.
pub open spec fn grouped_prefix(ds: Seq<char>, k: nat) -> Seq<char>
    decreases k,
{
    if k == 0 {
        seq![]
    } else {
        let i = (k - 1) as nat;
        let sep = if i > 0 && (ds.len() - i) % 3 == 0 {
            seq![',']
        } else {
            seq![]
        };
        grouped_prefix(ds, i) + sep + seq![ds[i as int]]
    }
}

/// `n` in decimal with thousands separated by commas: 1234567 is "1,234,567".
pub open spec fn grouped(n: nat) -> Seq<char> {
    grouped_prefix(decimal(n), decimal(n).len())
}

/// A digit is never a comma, and the decimal form is never empty.
pub proof fn lemma_decimal_digits(n: nat)
    ensures
        decimal(n).len() >= 1,
        forall|i: int| 0 <= i < decimal(n).len() ==> decimal(n)[i] != ',',
    decreases n,
{
    if n >= 10 {
        lemma_decimal_digits(n / 10);
    }
}

/// `decimal` needs at most twenty digits for a 64-bit number.
pub proof fn lemma_decimal_len_u64(n: nat)
    requires
        n <= u64::MAX,
    ensures
        decimal(n).len() <= 20,
{
    assert(pow10(20) == 100000000000000000000nat) by {
        reveal_with_fuel(pow10, 21);
    }
    lemma_decimal_len_bound(n, 20);
}

proof fn lemma_decimal_len_bound(n: nat, k: nat)
    requires
        k >= 1,
        n < pow10(k),
    ensures
        decimal(n).len() <= k,
    decreases n,
{
    if n >= 10 {
        assert(k >= 2) by {
            if k == 1 {
                assert(pow10(1) == 10) by {
                    reveal_with_fuel(pow10, 2);
                }
            }
        }
        assert(n / 10 < pow10((k - 1) as nat)) by {
            assert(pow10(k) == 10 * pow10((k - 1) as nat));
        }
        lemma_decimal_len_bound(n / 10, (k - 1) as nat);
    }
}

pub open spec fn pow10(k: nat) -> nat
    decreases k,
{
    if k == 0 {
        1
    } else {
        10 * pow10((k - 1) as nat)
    }
}

/// Removing the commas from the grouped form gives back the plain digits.
pub proof fn lemma_grouped_digits(n: nat)
    ensures
        grouped(n).filter(|c: char| c != ',') == decimal(n),
{
    let ds = decimal(n);
    lemma_decimal_digits(n);
    lemma_grouped_prefix_digits(ds, ds.len());
    assert(ds.take(ds.len() as int) =~= ds);
}

proof fn lemma_grouped_prefix_digits(ds: Seq<char>, k: nat)
    requires
        k <= ds.len(),
        forall|i: int| 0 <= i < ds.len() ==> ds[i] != ',',
    ensures
        grouped_prefix(ds, k).filter(|c: char| c != ',') == ds.take(k as int),
    decreases k,
{
    if k > 0 {
        let i = (k - 1) as nat;
        lemma_grouped_prefix_digits(ds, i);
        let sep = if i > 0 && (ds.len() - i) % 3 == 0 {
            seq![',']
        } else {
            seq![]
        };
        let f = |c: char| c != ',';
        Seq::filter_distributes_over_add(grouped_prefix(ds, i) + sep, seq![ds[i as int]], f);
        Seq::filter_distributes_over_add(grouped_prefix(ds, i), sep, f);
        assert(sep.filter(f) =~= seq![]) by {
            reveal_with_fuel(Seq::filter, 2);
        }
        assert(seq![ds[i as int]].filter(f) =~= seq![ds[i as int]]) by {
            reveal_with_fuel(Seq::filter, 2);
        }
        assert(ds.take(i as int).push(ds[i as int]) =~= ds.take(k as int));
    }
}

/// Size of the first group of `len` digits: 1 to 3, the rest in threes.
pub open spec fn first_group(len: nat) -> int {
    ((len - 1) % 3) + 1
}

/// The groups of a grouped prefix of `k` digits: one group while the first
/// is not complete; then the first group full, whole groups of three, and a
/// last group growing from one to three.
proof fn lemma_grouped_prefix_groups(ds: Seq<char>, k: nat)
    requires
        ds.len() >= 1,
        k <= ds.len(),
        forall|i: int| 0 <= i < ds.len() ==> ds[i] != ',',
    ensures
        ({
            let f = first_group(ds.len());
            let ps = split_chars(grouped_prefix(ds, k), ',');
            if k <= f {
                ps.len() == 1 && ps[0].len() == k
            } else {
                &&& ps.len() >= 2
                &&& ps[0].len() == f
                &&& forall|q: int| 1 <= q < ps.len() - 1 ==> (#[trigger] ps[q]).len() == 3
                &&& ps.last().len() == ((k - f - 1) % 3) + 1
            }
        }),
    decreases k,
{
    let f = first_group(ds.len());
    let l = ds.len() as int;
    if k == 0 {
        assert(split_chars(seq![], ',') == seq![Seq::<char>::empty()]);
    } else {
        let i = (k - 1) as nat;
        lemma_grouped_prefix_groups(ds, i);
        let g = grouped_prefix(ds, i);
        let d = ds[i as int];
        let prev = split_chars(g, ',');
        lemma_split_chars_nonempty(g, ',');
        let cut = i > 0 && (l - i) % 3 == 0;
        assert(cut <==> (i >= f && (i - f) % 3 == 0));
        if cut {
            let gc = g + seq![','];
            assert(gc.drop_last() =~= g);
            assert(split_chars(gc, ',') == prev.push(seq![]));
            let s2 = gc + seq![d];
            assert(s2.drop_last() =~= gc);
            assert(grouped_prefix(ds, k) == s2);
            let ps = split_chars(s2, ',');
            assert(ps == prev.push(seq![]).update(prev.len() as int, seq![d]));
            assert(ps =~= prev.push(seq![d]));
        } else {
            assert(g + Seq::<char>::empty() + seq![d] =~= g.push(d));
            let s2 = g.push(d);
            assert(s2.drop_last() =~= g);
            assert(grouped_prefix(ds, k) == s2);
            let ps = split_chars(s2, ',');
            assert(ps == prev.update(prev.len() - 1, prev.last().push(d)));
            if i > f {
                assert forall|q: int| 1 <= q < ps.len() - 1 implies (#[trigger] ps[q]).len() == 3 by {
                    assert(ps[q] == prev[q]);
                }
            }
        }
    }
}

/// The commas of the grouped form split its digits into groups: the first
/// holds one to three digits, every other exactly three.
pub proof fn lemma_grouped_groups(n: nat)
    ensures
        1 <= split_chars(grouped(n), ',')[0].len() <= 3,
        forall|q: int|
            1 <= q < split_chars(grouped(n), ',').len() ==> (#[trigger] split_chars(grouped(n), ',')[q]).len() == 3,
{
    let ds = decimal(n);
    lemma_decimal_digits(n);
    lemma_grouped_prefix_groups(ds, ds.len());
}

/// The one-character string of a digit.
pub fn digit_str(d: u64) -> (res: &'static str)
    requires
        d < 10,
    ensures
        res@ == seq![digit_char(d as nat)],
{
    proof {
        reveal_strlit("0");
        reveal_strlit("1");
        reveal_strlit("2");
        reveal_strlit("3");
        reveal_strlit("4");
        reveal_strlit("5");
        reveal_strlit("6");
        reveal_strlit("7");
        reveal_strlit("8");
        reveal_strlit("9");
    }
    match d {
        0 => "0",
        1 => "1",
        2 => "2",
        3 => "3",
        4 => "4",
        5 => "5",
        6 => "6",
        7 => "7",
        8 => "8",
        _ => "9",
    }
}

/// Appends the decimal digits of `n` to `s`.
pub fn push_decimal(s: &mut String, n: u64)
    ensures
        final(s)@ == old(s)@ + decimal(n as nat),
    decreases n,
{
    if n >= 10 {
        push_decimal(s, n / 10);
    }
    s.append(digit_str(n % 10));
}

/// `n` in decimal, like `n.to_string()`.
pub fn decimal_string(n: u64) -> (res: String)
    ensures
        res@ == decimal(n as nat),
{
    let mut s = String::new();
    push_decimal(&mut s, n);
    s
}

/// `n` in decimal with a comma between groups of three digits.
pub fn fmt_num(n: u64) -> (res: String)
    ensures
        res@ == grouped(n as nat),
{
    let ds = decimal_string(n);
    let digits = ds.as_str();
    let len = digits.unicode_len();
    proof {
        lemma_decimal_len_u64(n as nat);
    }
    let mut out = String::new();
    let mut i: usize = 0;
    while i < len
        invariant
            i <= len,
            len == digits@.len(),
            digits@ == decimal(n as nat),
            out@ == grouped_prefix(digits@, i as nat),
        decreases len - i,
    {
        if i > 0 && (len - i) % 3 == 0 {
            out.append(",");
            proof {
                reveal_strlit(",");
            }
        }
        let one = digits.substring_char(i, i + 1);
        out.append(one);
        proof {
            assert(one@ =~= seq![digits@[i as int]]);
        }
        i = i + 1;
    }
    out
}

/// The characters of `s`, in order.
pub fn chars_of(s: &str) -> (res: Vec<char>)
    ensures
        res@ == s@,
{
    broadcast use vstd::string::group_string_axioms;

    let n = s.unicode_len();
    let mut it = s.chars();
    let mut out: Vec<char> = Vec::new();
    while out.len() < n
        invariant
            n == s@.len(),
            out@ + IteratorSpec::remaining(&it) == s@,
            it.obeys_prophetic_iter_laws(),
        ensures
            out@ == s@,
        decreases n - out.len(),
    {
        let ghost before = IteratorSpec::remaining(&it);
        assert(before.len() > 0);
        match it.next() {
            Some(c) => {
                out.push(c);
                assert(out@ + IteratorSpec::remaining(&it) =~= s@);
            },
            None => {
                break;
            },
        }
    }
    out
}

/// Appends one character to a string with `String::push`. Believed, not
/// proved: the string afterwards is the one before with `c` at its end.
#[verifier::external_body]
pub(crate) fn push_char(s: &mut String, c: char)
    ensures
        final(s)@ == old(s)@.push(c),
{
    s.push(c);
}


/// The string of `cs[lo..hi]`.
pub fn string_of(cs: &Vec<char>, lo: usize, hi: usize) -> (res: String)
    requires
        lo <= hi <= cs@.len(),
    ensures
        res@ == cs@.subrange(lo as int, hi as int),
{
    let mut out = String::new();
    let mut k = lo;
    while k < hi
        invariant
            lo <= k <= hi <= cs@.len(),
            out@ == cs@.subrange(lo as int, k as int),
        decreases hi - k,
    {
        push_char(&mut out, cs[k]);
        proof {
            assert(cs@.subrange(lo as int, k + 1) =~= cs@.subrange(lo as int, k as int).push(cs@[k as int]));
        }
        k = k + 1;
    }
    out
}

/// Whitespace as `char::is_whitespace` defines it: the Unicode `White_Space` property.
pub open spec fn is_white(c: char) -> bool {
    ||| ('\u{9}' <= c && c <= '\u{D}')
    ||| c == ' '
    ||| c == '\u{85}'
    ||| c == '\u{A0}'
    ||| c == '\u{1680}'
    ||| ('\u{2000}' <= c && c <= '\u{200A}')
    ||| c == '\u{2028}'
    ||| c == '\u{2029}'
    ||| c == '\u{202F}'
    ||| c == '\u{205F}'
    ||| c == '\u{3000}'
}

/// `char::is_whitespace`.
pub fn is_white_exec(c: char) -> (res: bool)
    ensures
        res == is_white(c),
{
    ('\u{9}' <= c && c <= '\u{D}') || c == ' ' || c == '\u{85}' || c == '\u{A0}' || c == '\u{1680}'
        || ('\u{2000}' <= c && c <= '\u{200A}') || c == '\u{2028}' || c == '\u{2029}' || c
        == '\u{202F}' || c == '\u{205F}' || c == '\u{3000}'
}

/// Number of leading whitespace characters.
pub open spec fn lead_white(s: Seq<char>) -> nat
    decreases s.len(),
{
    if s.len() == 0 || !is_white(s[0]) {
        0
    } else {
        1 + lead_white(s.drop_first())
    }
}

/// Number of trailing whitespace characters.
pub open spec fn trail_white(s: Seq<char>) -> nat
    decreases s.len(),
{
    if s.len() == 0 || !is_white(s.last()) {
        0
    } else {
        1 + trail_white(s.drop_last())
    }
}

/// `s` without whitespace at either end (`str::trim`).
pub open spec fn trim_white(s: Seq<char>) -> Seq<char> {
    let rest = s.skip(lead_white(s) as int);
    rest.take(rest.len() - trail_white(rest))
}

/// `s` without leading and trailing white space (`str::trim`).
pub fn trim_string(s: &str) -> (res: String)
    ensures
        res@ == trim_white(s@),
{
    let cs = chars_of(s);
    let (a, b) = trim_bounds(&cs, 0, cs.len());
    assert(cs@.subrange(0, cs@.len() as int) =~= cs@);
    string_of(&cs, a, b)
}

/// Pieces of `s` between the separators `sep`: one more piece than separators.
pub open spec fn split_chars(s: Seq<char>, sep: char) -> Seq<Seq<char>>
    decreases s.len(),
{
    if s.len() == 0 {
        seq![seq![]]
    } else {
        let prev = split_chars(s.drop_last(), sep);
        if s.last() == sep {
            prev.push(seq![])
        } else {
            prev.update(prev.len() - 1, prev.last().push(s.last()))
        }
    }
}

/// Bounds of `cs[lo..hi]` trimmed of whitespace at both ends.
pub fn trim_bounds(cs: &Vec<char>, lo: usize, hi: usize) -> (res: (usize, usize))
    requires
        lo <= hi <= cs@.len(),
    ensures
        lo <= res.0 <= res.1 <= hi,
        cs@.subrange(res.0 as int, res.1 as int) == trim_white(cs@.subrange(lo as int, hi as int)),
{
    let ghost raw = cs@.subrange(lo as int, hi as int);
    let mut a = lo;
    assert(raw.skip(0) =~= raw);
    while a < hi
        invariant
            lo <= a <= hi <= cs@.len(),
            raw == cs@.subrange(lo as int, hi as int),
            lead_white(raw) == (a - lo) + lead_white(raw.skip(a - lo)),
        ensures
            lead_white(raw) == a - lo,
        decreases hi - a,
    {
        let c = cs[a];
        proof {
            assert(raw.skip(a - lo)[0] == c);
        }
        if !is_white_exec(c) {
            break;
        }
        proof {
            assert(raw.skip(a - lo).drop_first() =~= raw.skip(a - lo + 1));
        }
        a = a + 1;
    }
    let ghost rest = raw.skip(a - lo);
    assert(rest =~= cs@.subrange(a as int, hi as int));
    let mut b = hi;
    assert(rest.take(hi - a) =~= rest);
    while b > a
        invariant
            lo <= a <= b <= hi <= cs@.len(),
            rest == cs@.subrange(a as int, hi as int),
            trail_white(rest) == (hi - b) + trail_white(rest.take(b - a)),
        ensures
            trail_white(rest) == hi - b,
        decreases b - a,
    {
        let c = cs[b - 1];
        proof {
            assert(rest.take(b - a).last() == c);
        }
        if !is_white_exec(c) {
            break;
        }
        proof {
            assert(rest.take(b - a).drop_last() =~= rest.take(b - a - 1));
        }
        b = b - 1;
    }
    assert(cs@.subrange(a as int, b as int) =~= trim_white(raw));
    (a, b)
}


pub proof fn lemma_split_chars_nonempty(s: Seq<char>, sep: char)
    ensures
        split_chars(s, sep).len() >= 1,
    decreases s.len(),
{
    if s.len() > 0 {
        lemma_split_chars_nonempty(s.drop_last(), sep);
    }
}

/// The pieces of the text before a separator are the first pieces of the
/// whole text.
pub proof fn lemma_split_prefix(s: Seq<char>, sep: char, i: int)
    requires
        0 <= i < s.len(),
        s[i] == sep,
    ensures
        split_chars(s, sep).len() >= split_chars(s.take(i), sep).len() + 1,
        split_chars(s, sep).take(split_chars(s.take(i), sep).len() as int) == split_chars(s.take(i), sep),
{
    lemma_split_prefix_upto(s, sep, i, s.len() as int);
    assert(s.take(s.len() as int) =~= s);
}

proof fn lemma_split_prefix_upto(s: Seq<char>, sep: char, i: int, m: int)
    requires
        0 <= i < m <= s.len(),
        s[i] == sep,
    ensures
        split_chars(s.take(m), sep).len() >= split_chars(s.take(i), sep).len() + 1,
        split_chars(s.take(m), sep).take(split_chars(s.take(i), sep).len() as int) == split_chars(s.take(i), sep),
    decreases m - i,
{
    let p = split_chars(s.take(i), sep);
    let b = split_chars(s.take(m), sep);
    assert(s.take(m).drop_last() =~= s.take(m - 1));
    if m == i + 1 {
        assert(b == p.push(seq![]));
        assert(b.take(p.len() as int) =~= p);
    } else {
        lemma_split_prefix_upto(s, sep, i, m - 1);
        let a = split_chars(s.take(m - 1), sep);
        assert(b.take(p.len() as int) =~= a.take(p.len() as int));
    }
}

/// The pieces of `s` between the separators `sep` (`str::split`).
pub fn split_string(s: &str, sep: char) -> (res: Vec<String>)
    ensures
        res@.map_values(|x: String| x@) == split_chars(s@, sep),
        res@.len() >= 1,
{
    let cs = chars_of(s);
    let n = cs.len();
    let mut out: Vec<String> = Vec::new();
    let mut start: usize = 0;
    let mut i: usize = 0;
    assert(cs@.take(0) =~= seq![]);
    assert(cs@.subrange(0, 0) =~= seq![]);
    while i < n
        invariant
            0 <= start <= i <= n == cs@.len(),
            cs@ == s@,
            split_chars(cs@.take(i as int), sep) == out@.map_values(|x: String| x@).push(
                cs@.subrange(start as int, i as int),
            ),
        decreases n - i,
    {
        assert(cs@.take(i + 1).drop_last() =~= cs@.take(i as int));
        if cs[i] == sep {
            let piece = string_of(&cs, start, i);
            out.push(piece);
            proof {
                assert(cs@.subrange(i + 1, i + 1) =~= seq![]);
                assert(out@.map_values(|x: String| x@).push(cs@.subrange(i + 1, i + 1))
                    =~= split_chars(cs@.take(i + 1), sep));
            }
            start = i + 1;
        } else {
            proof {
                assert(cs@.subrange(start as int, i + 1) =~= cs@.subrange(start as int, i as int).push(
                    cs@[i as int],
                ));
                assert(out@.map_values(|x: String| x@).push(cs@.subrange(start as int, i + 1))
                    =~= split_chars(cs@.take(i + 1), sep));
            }
        }
        i = i + 1;
    }
    let piece = string_of(&cs, start, n);
    out.push(piece);
    proof {
        assert(cs@.take(n as int) =~= cs@);
        assert(out@.map_values(|x: String| x@) =~= split_chars(s@, sep));
    }
    out
}

/// What `str::to_lowercase` makes of a string (Unicode lower case mapping).
/// It depends on the string alone; nothing more is said of it.
pub uninterp spec fn lowercase(s: Seq<char>) -> Seq<char>;

/// The string in lower case, by `str::to_lowercase`. Believed, not proved:
/// the result is `lowercase` of the string.
#[verifier::external_body]
pub(crate) fn to_lowercase(s: &str) -> (res: String)
    ensures
        res@ == lowercase(s@),
{
    s.to_lowercase()
}

/// Whether `needle` occurs somewhere in `hay` (`str::contains`).
pub open spec fn contains_seq(hay: Seq<char>, needle: Seq<char>) -> bool {
    exists|i: int| 0 <= i && i + needle.len() <= hay.len() && #[trigger] hay.subrange(i, i + needle.len()) == needle
}

/// Whether `needle` occurs in `hay`.
pub fn contains_chars(hay: &Vec<char>, needle: &Vec<char>) -> (res: bool)
    ensures
        res == contains_seq(hay@, needle@),
{
    let n = hay.len();
    let m = needle.len();
    if m > n {
        proof {
            assert forall|i: int| 0 <= i && i + m <= n implies #[trigger] hay@.subrange(i, i + m) != needle@ by {}
        }
        return false;
    }
    let mut i: usize = 0;
    while i <= n - m
        invariant
            m <= n == hay@.len(),
            m == needle@.len(),
            forall|a: int| 0 <= a < i ==> #[trigger] hay@.subrange(a, a + m) != needle@,
        decreases n - i,
    {
        let mut j: usize = 0;
        while j < m
            invariant
                i + m <= n == hay@.len(),
                m == needle@.len(),
                j <= m,
                forall|b: int| 0 <= b < j ==> hay@[i + b] == needle@[b],
            ensures
                j <= m,
                forall|b: int| 0 <= b < j ==> hay@[i + b] == needle@[b],
                j < m ==> hay@[i + j] != needle@[j as int],
            decreases m - j,
        {
            if hay[i + j] != needle[j] {
                break;
            }
            j = j + 1;
        }
        if j == m {
            assert(hay@.subrange(i as int, i + m) =~= needle@);
            return true;
        }
        proof {
            assert(hay@.subrange(i as int, i + m)[j as int] != needle@[j as int]);
        }
        i = i + 1;
    }
    false
}

/// The whitespace separated words of `s` (`str::split_whitespace`).
pub open spec fn words(s: Seq<char>) -> Seq<Seq<char>>
    decreases s.len(),
{
    if s.len() == 0 {
        seq![]
    } else {
        let prev = words(s.drop_last());
        let c = s.last();
        if is_white(c) {
            prev
        } else if s.len() == 1 || is_white(s[s.len() - 2]) {
            prev.push(seq![c])
        } else {
            prev.update(prev.len() - 1, prev.last().push(c))
        }
    }
}

/// The words of `s`, each in lower case.
pub fn lowercase_words(s: &str) -> (res: Vec<String>)
    ensures
        res@.map_values(|w: String| w@) == words(s@).map_values(|w: Seq<char>| lowercase(w)),
{
    let cs = chars_of(s);
    let n = cs.len();
    let mut out: Vec<String> = Vec::new();
    let ghost mut done: Seq<Seq<char>> = seq![];
    let mut in_word = false;
    let mut start: usize = 0;
    let mut i: usize = 0;
    assert(cs@.take(0) =~= seq![]);
    while i < n
        invariant
            i <= n == cs@.len(),
            cs@ == s@,
            start <= i,
            in_word ==> start < i,
            words(cs@.take(i as int)) == if in_word {
                done.push(cs@.subrange(start as int, i as int))
            } else {
                done
            },
            in_word ==> !is_white(cs@[i - 1]),
            in_word ==> forall|k: int| start <= k < i ==> !is_white(#[trigger] cs@[k]),
            in_word ==> (start == 0 || is_white(cs@[start - 1])),
            !in_word ==> (i == 0 || is_white(cs@[i - 1])),
            out@.map_values(|x: String| x@) == done.map_values(|x: Seq<char>| lowercase(x)),
        decreases n - i,
    {
        let c = cs[i];
        let white = is_white_exec(c);
        let ghost pre = cs@.take(i as int);
        assert(cs@.take(i + 1).drop_last() =~= pre);
        assert(cs@.take(i + 1).last() == c);
        if white {
            if in_word {
                let word = string_of(&cs, start, i);
                let low = to_lowercase(word.as_str());
                let ghost prev_out = out@;
                out.push(low);
                proof {
                    let prev_done = done;
                    done = done.push(cs@.subrange(start as int, i as int));
                    assert(out@ == prev_out.push(low));
                    assert(out@.map_values(|x: String| x@) =~= prev_out.map_values(|x: String| x@).push(low@));
                    assert(done.map_values(|x: Seq<char>| lowercase(x)) =~= prev_done.map_values(|x: Seq<char>| lowercase(x)).push(lowercase(cs@.subrange(start as int, i as int))));
                }
            }
            in_word = false;
        } else {
            if !in_word {
                start = i;
                in_word = true;
                proof {
                    assert(cs@.subrange(start as int, i + 1) =~= seq![c]);
                    if i > 0 {
                        assert(cs@.take(i + 1)[i - 1] == cs@[i - 1]);
                    }
                }
            } else {
                proof {
                    assert(cs@.take(i + 1)[i - 1] == cs@[i - 1]);
                    assert(cs@.subrange(start as int, i + 1) =~= cs@.subrange(start as int, i as int).push(c));
                }
            }
        }
        i = i + 1;
    }
    if in_word {
        let word = string_of(&cs, start, n);
        let low = to_lowercase(word.as_str());
        let ghost prev_out = out@;
        out.push(low);
        proof {
            let prev_done = done;
            done = done.push(cs@.subrange(start as int, n as int));
            assert(out@ == prev_out.push(low));
            assert(out@.map_values(|x: String| x@) =~= prev_out.map_values(|x: String| x@).push(low@));
            assert(done.map_values(|x: Seq<char>| lowercase(x)) =~= prev_done.map_values(|x: Seq<char>| lowercase(x)).push(lowercase(cs@.subrange(start as int, n as int))));
        }
    }
    proof {
        assert(cs@.take(n as int) =~= cs@);
    }
    out
}

pub open spec fn is_digit(c: char) -> bool {
    '0' <= c && c <= '9'
}

pub open spec fn all_digits(ds: Seq<char>) -> bool {
    forall|i: int| 0 <= i < ds.len() ==> is_digit(#[trigger] ds[i])
}

/// The number the decimal digits `s` spell.
pub open spec fn digits_value(s: Seq<char>) -> int
    decreases s.len(),
{
    if s.len() == 0 {
        0
    } else {
        digits_value(s.drop_last()) * 10 + (s.last() as int - '0' as int)
    }
}

/// What `str::parse::<i64>` gives: an optional `+` or `-`, then one or more
/// ASCII digits, for a value in range; nothing else.
pub open spec fn parse_i64_spec(s: Seq<char>) -> Option<i64> {
    let signed = s.len() > 0 && (s[0] == '-' || s[0] == '+');
    let ds = if signed {
        s.drop_first()
    } else {
        s
    };
    let v = if s.len() > 0 && s[0] == '-' {
        -digits_value(ds)
    } else {
        digits_value(ds)
    };
    if ds.len() == 0 || !all_digits(ds) {
        None
    } else if i64::MIN <= v <= i64::MAX {
        Some(v as i64)
    } else {
        None
    }
}

proof fn lemma_digits_value_nonneg(s: Seq<char>)
    requires
        forall|i: int| 0 <= i < s.len() ==> is_digit(#[trigger] s[i]),
    ensures
        digits_value(s) >= 0,
    decreases s.len(),
{
    if s.len() > 0 {
        lemma_digits_value_nonneg(s.drop_last());
    }
}

/// The number written in `cs[lo..hi]`, parsed like `str::parse::<i64>`.
#[verifier::loop_isolation(false)]
pub fn parse_i64(cs: &Vec<char>, lo: usize, hi: usize) -> (res: Option<i64>)
    requires
        lo <= hi <= cs@.len(),
    ensures
        res == parse_i64_spec(cs@.subrange(lo as int, hi as int)),
{
    let ghost s = cs@.subrange(lo as int, hi as int);
    let neg = lo < hi && cs[lo] == '-';
    let signed = lo < hi && (cs[lo] == '-' || cs[lo] == '+');
    let start = if signed { lo + 1 } else { lo };
    let ghost ds = cs@.subrange(start as int, hi as int);
    assert(signed ==> ds =~= s.drop_first());
    assert(!signed ==> ds =~= s);
    if start == hi {
        return None;
    }
    let limit: u128 = 9223372036854775808;
    let mut mag: u128 = 0;
    let mut big = false;
    let mut k = start;
    assert(ds.take(0) =~= seq![]);
    while k < hi
        invariant
            start <= k <= hi <= cs@.len(),
            ds == cs@.subrange(start as int, hi as int),
            limit == 9223372036854775808,
            forall|i: int| 0 <= i < k - start ==> is_digit(#[trigger] ds[i]),
            !big ==> mag == digits_value(ds.take(k - start)) && mag <= limit,
            big ==> digits_value(ds.take(k - start)) > limit,
        decreases hi - k,
    {
        let c = cs[k];
        assert(ds[k - start] == c);
        if !('0' <= c && c <= '9') {
            assert(!is_digit(ds[k - start]));
            return None;
        }
        let ghost pre = ds.take(k - start);
        assert(ds.take(k - start + 1).drop_last() =~= pre);
        assert(ds.take(k - start + 1).last() == c);
        proof {
            lemma_digits_value_nonneg(pre);
        }
        if !big {
            let d = (c as u32 - '0' as u32) as u128;
            mag = mag * 10 + d;
            if mag > limit {
                big = true;
            }
        }
        k = k + 1;
    }
    proof {
        assert(ds.take(hi - start) =~= ds);
    }
    if big {
        return None;
    }
    if neg {
        let v: i128 = -(mag as i128);
        Some(v as i64)
    } else if mag <= 9223372036854775807 {
        Some(mag as i64)
    } else {
        None
    }
}

/// Without separators, the whole sequence is one piece.
pub proof fn lemma_split_no_sep(s: Seq<char>, sep: char)
    requires
        forall|i: int| 0 <= i < s.len() ==> s[i] != sep,
    ensures
        split_chars(s, sep) == seq![s],
    decreases s.len(),
{
    if s.len() > 0 {
        lemma_split_no_sep(s.drop_last(), sep);
        assert(s.drop_last().push(s.last()) =~= s);
        assert(split_chars(s, sep) =~= seq![s]);
    } else {
        assert(s =~= seq![]);
    }
}

/// The first piece runs up to the first separator; the rest are the pieces
/// of what follows it.
pub proof fn lemma_split_front(s: Seq<char>, sep: char, e: int)
    requires
        0 <= e < s.len(),
        s[e] == sep,
        forall|i: int| 0 <= i < e ==> s[i] != sep,
    ensures
        split_chars(s, sep) == seq![s.take(e)] + split_chars(s.skip(e + 1), sep),
    decreases s.len(),
{
    if s.len() == e + 1 {
        lemma_split_no_sep(s.take(e), sep);
        assert(s.drop_last() =~= s.take(e));
        assert(s.skip(e + 1) =~= seq![]);
        assert(split_chars(s, sep) =~= seq![s.take(e)] + split_chars(s.skip(e + 1), sep));
    } else {
        let d = s.drop_last();
        lemma_split_front(d, sep, e);
        assert(d.take(e) =~= s.take(e));
        assert(s.skip(e + 1).drop_last() =~= d.skip(e + 1));
        assert(s.skip(e + 1).last() == s.last());
        lemma_split_chars_nonempty(d.skip(e + 1), sep);
        let x = split_chars(d.skip(e + 1), sep);
        if s.last() == sep {
            assert((seq![s.take(e)] + x).push(seq![]) =~= seq![s.take(e)] + x.push(seq![]));
        } else {
            let y = seq![s.take(e)] + x;
            assert(y.update(y.len() - 1, y.last().push(s.last())) =~= seq![s.take(e)] + x.update(
                x.len() - 1,
                x.last().push(s.last()),
            ));
        }
    }
}
} // verus!
