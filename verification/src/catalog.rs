//! Translation catalogs: the messages of a language's `main.ftl` file, and
//! the text shown for a message. A message missing from the language's own
//! catalog comes from the English one; one missing there too is shown by its
//! id, as a last resort.

use vstd::prelude::*;
use crate::i18n::Language;
use crate::text::{chars_of, split_chars, split_string, string_of, trim_bounds, trim_white};

verus! {

/// The messages of one language, in the order the file gives them.
pub struct Catalog {
    /// (message id, text) pairs.
    pub messages: Vec<(String, String)>,
}

/// The messages as character sequences.
pub open spec fn messages_view(ms: Seq<(String, String)>) -> Seq<(Seq<char>, Seq<char>)> {
    ms.map_values(|m: (String, String)| (m.0@, m.1@))
}

/// The text of message `id`: that of the first message with this id.
pub open spec fn text_of(ms: Seq<(Seq<char>, Seq<char>)>, id: Seq<char>) -> Option<Seq<char>>
    decreases ms.len(),
{
    if ms.len() == 0 {
        None
    } else if ms[0].0 == id {
        Some(ms[0].1)
    } else {
        text_of(ms.drop_first(), id)
    }
}

/// The text shown for message `id` in `lang`: from the language's own
/// catalog, else from the English one, else the id itself.
pub open spec fn shown_text(
    lang: Language,
    id: Seq<char>,
    english: Seq<(Seq<char>, Seq<char>)>,
    chinese: Seq<(Seq<char>, Seq<char>)>,
) -> Seq<char> {
    let own = match lang {
        Language::English => english,
        Language::SimplifiedChinese => chinese,
    };
    match text_of(own, id) {
        Some(t) => t,
        None => match text_of(english, id) {
            Some(t) => t,
            None => id,
        },
    }
}

/// Position of the first `c` in `s`, or -1.
pub open spec fn index_of(s: Seq<char>, c: char) -> int
    decreases s.len(),
{
    if s.len() == 0 {
        -1
    } else if s[0] == c {
        0
    } else {
        let r = index_of(s.drop_first(), c);
        if r < 0 {
            -1
        } else {
            r + 1
        }
    }
}

/// An ASCII letter.
pub open spec fn is_letter(c: char) -> bool {
    ('a' <= c && c <= 'z') || ('A' <= c && c <= 'Z')
}

/// A character that may stand in a message id after its first.
pub open spec fn is_id_char(c: char) -> bool {
    is_letter(c) || ('0' <= c && c <= '9') || c == '-' || c == '_'
}

/// A message id: a letter, then letters, digits, `-` and `_`.
pub open spec fn valid_id(s: Seq<char>) -> bool {
    s.len() > 0 && is_letter(s[0]) && forall|i: int| 0 <= i < s.len() ==> is_id_char(#[trigger] s[i])
}

/// The message of one line, `id = text` (both trimmed); `None` for a blank
/// line, a comment (`#`) or a line that is not a message.
pub open spec fn message_line(line: Seq<char>) -> Option<(Seq<char>, Seq<char>)> {
    let l = trim_white(line);
    let e = index_of(l, '=');
    if l.len() == 0 || l[0] == '#' || e < 0 {
        None
    } else {
        let id = trim_white(l.take(e));
        if valid_id(id) {
            Some((id, trim_white(l.skip(e + 1))))
        } else {
            None
        }
    }
}

/// The messages of the lines, in order.
pub open spec fn lines_messages(ls: Seq<Seq<char>>) -> Seq<(Seq<char>, Seq<char>)>
    decreases ls.len(),
{
    if ls.len() == 0 {
        seq![]
    } else {
        let prev = lines_messages(ls.drop_last());
        match message_line(ls.last()) {
            Some(m) => prev.push(m),
            None => prev,
        }
    }
}

/// The messages of a catalog file.
pub open spec fn catalog_spec(text: Seq<char>) -> Seq<(Seq<char>, Seq<char>)> {
    lines_messages(split_chars(text, '\n'))
}

proof fn lemma_index_of_found(s: Seq<char>, c: char, m: int)
    requires
        0 <= m < s.len(),
        s[m] == c,
        forall|j: int| 0 <= j < m ==> s[j] != c,
    ensures
        index_of(s, c) == m,
    decreases m,
{
    if m > 0 {
        lemma_index_of_found(s.drop_first(), c, m - 1);
    }
}

proof fn lemma_index_of_none(s: Seq<char>, c: char)
    requires
        forall|j: int| 0 <= j < s.len() ==> s[j] != c,
    ensures
        index_of(s, c) == -1,
    decreases s.len(),
{
    if s.len() > 0 {
        lemma_index_of_none(s.drop_first(), c);
    }
}

fn is_letter_exec(c: char) -> (res: bool)
    ensures
        res == is_letter(c),
{
    ('a' <= c && c <= 'z') || ('A' <= c && c <= 'Z')
}

/// Whether `cs[lo..hi]` is a message id.
fn valid_id_exec(cs: &Vec<char>, lo: usize, hi: usize) -> (res: bool)
    requires
        lo <= hi <= cs@.len(),
    ensures
        res == valid_id(cs@.subrange(lo as int, hi as int)),
{
    let ghost s = cs@.subrange(lo as int, hi as int);
    if lo == hi || !is_letter_exec(cs[lo]) {
        return false;
    }
    let mut k = lo;
    while k < hi
        invariant
            lo <= k <= hi <= cs@.len(),
            s == cs@.subrange(lo as int, hi as int),
            forall|i: int| 0 <= i < k - lo ==> is_id_char(#[trigger] s[i]),
        decreases hi - k,
    {
        let c = cs[k];
        if !(is_letter_exec(c) || ('0' <= c && c <= '9') || c == '-' || c == '_') {
            assert(!is_id_char(s[k - lo]));
            return false;
        }
        k = k + 1;
    }
    true
}

/// The message of one line of a catalog file.
pub fn parse_message(line: &str) -> (res: Option<(String, String)>)
    ensures
        match res {
            Some(m) => message_line(line@) == Some((m.0@, m.1@)),
            None => message_line(line@) is None,
        },
{
    let cs = chars_of(line);
    let n = cs.len();
    assert(cs@.subrange(0, n as int) =~= cs@);
    let (a, b) = trim_bounds(&cs, 0, n);
    let ghost l = cs@.subrange(a as int, b as int);
    if a == b || cs[a] == '#' {
        return None;
    }
    let mut e = a;
    while e < b && cs[e] != '='
        invariant
            a <= e <= b <= cs@.len(),
            l == cs@.subrange(a as int, b as int),
            forall|j: int| a <= j < e ==> cs@[j] != '=',
        decreases b - e,
    {
        e = e + 1;
    }
    if e == b {
        proof {
            lemma_index_of_none(l, '=');
        }
        return None;
    }
    proof {
        lemma_index_of_found(l, '=', e - a);
        assert(l.take(e - a) =~= cs@.subrange(a as int, e as int));
        assert(l.skip(e - a + 1) =~= cs@.subrange(e + 1, b as int));
    }
    let (ia, ib) = trim_bounds(&cs, a, e);
    if !valid_id_exec(&cs, ia, ib) {
        return None;
    }
    let (ta, tb) = trim_bounds(&cs, e + 1, b);
    let id = string_of(&cs, ia, ib);
    let text = string_of(&cs, ta, tb);
    Some((id, text))
}

impl Catalog {
    /// A catalog with no messages, as when its file cannot be read.
    pub fn new() -> (res: Self)
        ensures
            res.messages@.len() == 0,
    {
        Catalog { messages: Vec::new() }
    }

    /// Reads the text of a `main.ftl` file: one message per `id = text`
    /// line; blank lines, comments and other lines add nothing.
    pub fn parse(text: &str) -> (res: Self)
        ensures
            messages_view(res.messages@) == catalog_spec(text@),
    {
        let lines = split_string(text, '\n');
        let ghost ls = lines@.map_values(|x: String| x@);
        let mut messages: Vec<(String, String)> = Vec::new();
        let mut k: usize = 0;
        assert(ls.take(0) =~= seq![]);
        assert(messages_view(messages@) =~= seq![]);
        while k < lines.len()
            invariant
                k <= lines@.len(),
                ls == lines@.map_values(|x: String| x@),
                ls == split_chars(text@, '\n'),
                messages_view(messages@) == lines_messages(ls.take(k as int)),
            decreases lines.len() - k,
        {
            let ghost before = messages@;
            proof {
                assert(ls.take(k + 1).drop_last() =~= ls.take(k as int));
                assert(ls.take(k + 1).last() == lines@[k as int]@);
            }
            match parse_message(lines[k].as_str()) {
                Some(m) => {
                    messages.push(m);
                    assert(messages_view(messages@) =~= messages_view(before).push((m.0@, m.1@)));
                },
                None => {},
            }
            k = k + 1;
        }
        assert(ls.take(k as int) =~= ls);
        Catalog { messages }
    }

    /// The text of message `id`, if the catalog has it.
    pub fn get(&self, id: &str) -> (res: Option<String>)
        ensures
            match res {
                Some(t) => text_of(messages_view(self.messages@), id@) == Some(t@),
                None => text_of(messages_view(self.messages@), id@) is None,
            },
    {
        let ghost ms = messages_view(self.messages@);
        let key = String::from_str(id);
        let mut k: usize = 0;
        assert(ms.skip(0) =~= ms);
        while k < self.messages.len()
            invariant
                k <= self.messages@.len(),
                ms == messages_view(self.messages@),
                key@ == id@,
                text_of(ms, id@) == text_of(ms.skip(k as int), id@),
            decreases self.messages.len() - k,
        {
            proof {
                assert(ms.skip(k as int)[0] == ms[k as int]);
                assert(ms.skip(k as int).drop_first() =~= ms.skip(k + 1));
            }
            if self.messages[k].0 == key {
                return Some(self.messages[k].1.clone());
            }
            k = k + 1;
        }
        None
    }
}

/// The text shown for message `id` in `lang`: from the language's own
/// catalog, else from the English catalog, else the id itself.
pub fn message(lang: Language, id: &str, english: &Catalog, chinese: &Catalog) -> (res: String)
    ensures
        res@ == shown_text(lang, id@, messages_view(english.messages@), messages_view(chinese.messages@)),
{
    let own = match lang {
        Language::English => english,
        Language::SimplifiedChinese => chinese,
    };
    match own.get(id) {
        Some(t) => t,
        None => match english.get(id) {
            Some(t) => t,
            None => String::from_str(id),
        },
    }
}

/// The catalogs of both languages.
pub struct Catalogs {
    pub english: Catalog,
    pub chinese: Catalog,
}

/// The text shown for message `id` in `lang`, from the catalogs `c`.
pub open spec fn caption(lang: Language, id: Seq<char>, c: Catalogs) -> Seq<char> {
    shown_text(lang, id, messages_view(c.english.messages@), messages_view(c.chinese.messages@))
}

impl Catalogs {
    /// The catalogs of both languages, read from the texts of their files.
    pub fn parse(english: &str, chinese: &str) -> (res: Self)
        ensures
            messages_view(res.english.messages@) == catalog_spec(english@),
            messages_view(res.chinese.messages@) == catalog_spec(chinese@),
    {
        Catalogs { english: Catalog::parse(english), chinese: Catalog::parse(chinese) }
    }

    /// The text shown for message `id` in `lang`.
    pub fn text(&self, lang: Language, id: &str) -> (res: String)
        ensures
            res@ == caption(lang, id@, *self),
    {
        message(lang, id, &self.english, &self.chinese)
    }
}

} // verus!
