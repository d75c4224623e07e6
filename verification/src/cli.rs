//! What the command line and the environment ask for: the folder to map,
//! whether to start in 3D, and the language of the interface.

use vstd::prelude::*;
use crate::i18n::{language_for_tag, Language};
use crate::text::{chars_of, string_of};

verus! {

/// `s` starts with `p`.
pub open spec fn has_prefix(s: Seq<char>, p: Seq<char>) -> bool {
    p.len() <= s.len() && s.take(p.len() as int) == p
}

/// The first argument that is not an option (does not start with `--`).
pub open spec fn project_arg_spec(args: Seq<Seq<char>>) -> Option<Seq<char>>
    decreases args.len(),
{
    if args.len() == 0 {
        None
    } else if !has_prefix(args[0], seq!['-', '-']) {
        Some(args[0])
    } else {
        project_arg_spec(args.drop_first())
    }
}

/// The language of the first `--lang=` argument whose tag names one.
pub open spec fn lang_arg_spec(args: Seq<Seq<char>>) -> Option<Language>
    decreases args.len(),
{
    if args.len() == 0 {
        None
    } else {
        let p = seq!['-', '-', 'l', 'a', 'n', 'g', '='];
        let here = if has_prefix(args[0], p) {
            language_for_tag(args[0].skip(7))
        } else {
            None
        };
        if here is Some {
            here
        } else {
            lang_arg_spec(args.drop_first())
        }
    }
}

/// The language of the first tag that names one.
pub open spec fn first_language(tags: Seq<Option<Seq<char>>>) -> Option<Language>
    decreases tags.len(),
{
    if tags.len() == 0 {
        None
    } else {
        let here = match tags[0] {
            Some(t) => language_for_tag(t),
            None => None,
        };
        if here is Some {
            here
        } else {
            first_language(tags.drop_first())
        }
    }
}

/// The interface language: a `--lang=` argument first, then the tags found
/// in the environment in the order given, then English.
pub open spec fn detected_language(args: Seq<Seq<char>>, tags: Seq<Option<Seq<char>>>) -> Language {
    match lang_arg_spec(args) {
        Some(l) => l,
        None => match first_language(tags) {
            Some(l) => l,
            None => Language::English,
        },
    }
}

/// The arguments as character sequences.
pub open spec fn arg_views(args: Seq<String>) -> Seq<Seq<char>> {
    args.map_values(|s: String| s@)
}

/// The tags as character sequences.
pub open spec fn tag_views(tags: Seq<Option<String>>) -> Seq<Option<Seq<char>>> {
    tags.map_values(
        |t: Option<String>|
            match t {
                Some(s) => Some(s@),
                None => None,
            },
    )
}

/// Whether `s` starts with `p`.
fn starts_with(s: &Vec<char>, p: &Vec<char>) -> (res: bool)
    ensures
        res == has_prefix(s@, p@),
{
    if p.len() > s.len() {
        return false;
    }
    let mut k: usize = 0;
    while k < p.len()
        invariant
            k <= p@.len() <= s@.len(),
            forall|j: int| 0 <= j < k ==> s@[j] == p@[j],
        decreases p.len() - k,
    {
        if s[k] != p[k] {
            return false;
        }
        k = k + 1;
    }
    assert(s@.take(p@.len() as int) =~= p@);
    true
}

/// The folder to map: the first argument that is not an option.
pub fn project_arg(args: &Vec<String>) -> (res: Option<String>)
    ensures
        match res {
            Some(a) => project_arg_spec(arg_views(args@)) == Some(a@),
            None => project_arg_spec(arg_views(args@)) is None,
        },
{
    let ghost all = arg_views(args@);
    let dashes = chars_of("--");
    proof {
        reveal_strlit("--");
        assert(dashes@ =~= seq!['-', '-']);
    }
    let mut k: usize = 0;
    assert(all.skip(0) =~= all);
    while k < args.len()
        invariant
            k <= args@.len(),
            all == arg_views(args@),
            dashes@ == seq!['-', '-'],
            project_arg_spec(all) == project_arg_spec(all.skip(k as int)),
        decreases args.len() - k,
    {
        let cs = chars_of(args[k].as_str());
        assert(all.skip(k as int).drop_first() =~= all.skip(k + 1));
        assert(all.skip(k as int)[0] == args@[k as int]@);
        if !starts_with(&cs, &dashes) {
            return Some(args[k].clone());
        }
        k = k + 1;
    }
    assert(all.skip(k as int) =~= Seq::<Seq<char>>::empty());
    None
}

/// Whether `--3d` asks to start in the 3D city view.
pub fn wants_3d(args: &Vec<String>) -> (res: bool)
    ensures
        res == exists|i: int| 0 <= i < args@.len() && args@[i]@ == seq!['-', '-', '3', 'd'],
{
    let flag = chars_of("--3d");
    proof {
        reveal_strlit("--3d");
        assert(flag@ =~= seq!['-', '-', '3', 'd']);
    }
    let mut k: usize = 0;
    while k < args.len()
        invariant
            k <= args@.len(),
            flag@ == seq!['-', '-', '3', 'd'],
            forall|i: int| 0 <= i < k ==> args@[i]@ != seq!['-', '-', '3', 'd'],
        decreases args.len() - k,
    {
        let cs = chars_of(args[k].as_str());
        if cs.len() == flag.len() && starts_with(&cs, &flag) {
            assert(cs@ =~= flag@);
            return true;
        }
        proof {
            if args@[k as int]@ == seq!['-', '-', '3', 'd'] {
                assert(cs@.take(flag@.len() as int) =~= cs@);
            }
        }
        k = k + 1;
    }
    false
}

impl Language {
    /// The interface language from the arguments and from the language tags
    /// found in the environment, in order of preference.
    pub fn detect_from(args: &Vec<String>, tags: &Vec<Option<String>>) -> (res: Self)
        ensures
            res == detected_language(
                arg_views(args@),
                tag_views(tags@),
            ),
    {
        let ghost all = arg_views(args@);
        let ghost ts = tag_views(tags@);
        let prefix = chars_of("--lang=");
        proof {
            reveal_strlit("--lang=");
            assert(prefix@ =~= seq!['-', '-', 'l', 'a', 'n', 'g', '=']);
        }
        let mut k: usize = 0;
        assert(all.skip(0) =~= all);
        while k < args.len()
            invariant
                k <= args@.len(),
                all == arg_views(args@),
                prefix@ == seq!['-', '-', 'l', 'a', 'n', 'g', '='],
                lang_arg_spec(all) == lang_arg_spec(all.skip(k as int)),
            decreases args.len() - k,
        {
            let cs = chars_of(args[k].as_str());
            assert(all.skip(k as int).drop_first() =~= all.skip(k + 1));
            assert(all.skip(k as int)[0] == args@[k as int]@);
            if starts_with(&cs, &prefix) {
                let tag = string_of(&cs, 7, cs.len());
                assert(cs@.subrange(7, cs@.len() as int) =~= cs@.skip(7));
                if let Some(l) = Language::from_language_tag(tag.as_str()) {
                    return l;
                }
            }
            k = k + 1;
        }
        assert(all.skip(k as int) =~= Seq::<Seq<char>>::empty());
        let mut j: usize = 0;
        assert(ts.skip(0) =~= ts);
        while j < tags.len()
            invariant
                j <= tags@.len(),
                ts == tag_views(tags@),
                all == arg_views(args@),
                lang_arg_spec(all) is None,
                first_language(ts) == first_language(ts.skip(j as int)),
            decreases tags.len() - j,
        {
            assert(ts.skip(j as int).drop_first() =~= ts.skip(j + 1));
            assert(ts.skip(j as int)[0] == ts[j as int]);
            match &tags[j] {
                Some(t) => {
                    assert(ts[j as int] == Some(t@));
                    if let Some(l) = Language::from_language_tag(t.as_str()) {
                        assert(first_language(ts.skip(j as int)) == Some(l));
                        return l;
                    }
                },
                None => {},
            }
            j = j + 1;
        }
        assert(ts.skip(j as int) =~= Seq::<Option<Seq<char>>>::empty());
        Language::English
    }
}

} // verus!
