use code_map::scan::{
    classify_contents, enter_folder, expand_step, leave_folder, ghost, glob, ignored_listing, join_rel, listed_entry, parse_gitignore, parse_ls_output,
    rule_matches, summarize_lines, walk_step, wants_contents, DiskKind, EntryKind, ExpandStep, Line, Rule,
    WalkStep, MAX_EXPAND_FILES, MAX_TEXT_BYTES,
};

#[test]
fn summarizes_each_line() {
    let data = b"    fn main() {\n\t// hi\n\n  # note\n*/\n";
    let lines = summarize_lines(data);
    assert_eq!(
        lines,
        vec![
            Line { indent: 4, len: 11, comment: false },
            Line { indent: 4, len: 5, comment: true },
            Line { indent: 0, len: 0, comment: false },
            Line { indent: 2, len: 6, comment: true },
            Line { indent: 0, len: 2, comment: true },
        ]
    );
}

#[test]
fn final_newline_starts_no_line() {
    assert!(summarize_lines(b"").is_empty());
    assert!(summarize_lines(b"\n").is_empty());
    assert_eq!(summarize_lines(b"a\n\n").len(), 2);
    assert_eq!(summarize_lines(b"a\nb").len(), 2);
    assert_eq!(summarize_lines(b"x;y").len(), 1);
}

#[test]
fn long_lines_are_capped() {
    let mut data = vec![b' '; 300];
    data.extend(vec![b'x'; 400]);
    let lines = summarize_lines(&data);
    assert_eq!(lines, vec![Line { indent: 255, len: 255, comment: false }]);
    let lines = summarize_lines(b"-- sql\n<!-- html -->\n/* c */\n; lisp\n");
    assert!(lines.iter().all(|l| l.comment));
}

#[test]
fn text_or_binary() {
    assert!(wants_contents(MAX_TEXT_BYTES));
    assert!(!wants_contents(MAX_TEXT_BYTES + 1));
    match classify_contents(4, Some(&b"ab\0c"[..])) {
        EntryKind::Binary { bytes } => assert_eq!(bytes, 4),
        other => panic!("{other:?}"),
    }
    match classify_contents(4, Some(&b"a\nb\n"[..])) {
        EntryKind::Text { bytes, lines } => {
            assert_eq!(bytes, 4);
            assert_eq!(lines.len(), 2);
        }
        other => panic!("{other:?}"),
    }
    assert!(matches!(classify_contents(9, None), EntryKind::Binary { bytes: 9 }));
    assert!(matches!(
        classify_contents(MAX_TEXT_BYTES + 1, Some(&b"text"[..])),
        EntryKind::Binary { .. }
    ));
    // a NUL byte far from the start does not make a file binary
    let mut late = vec![b'a'; 9000];
    late[8500] = 0;
    assert!(matches!(classify_contents(9000, Some(&late[..])), EntryKind::Text { .. }));
}

#[test]
fn reads_git_ls_files_output() {
    assert_eq!(parse_ls_output(b"a.rs\0dir/b.rs\0\0"), vec!["a.rs", "dir/b.rs"]);
    assert!(parse_ls_output(b"").is_empty());
    assert_eq!(parse_ls_output(b"only"), vec!["only"]);
    assert_eq!(parse_ls_output(b"a\xffb\0c"), vec!["a\u{fffd}b", "c"]);
}

#[test]
fn ignored_listings_and_listed_entries() {
    let e = ignored_listing("target//".to_string());
    assert_eq!(e.path, "target");
    assert!(matches!(e.kind, EntryKind::Unread { dir: true }));
    assert!(e.ignored);
    let e = ignored_listing("x.log".to_string());
    assert!(matches!(e.kind, EntryKind::Unread { dir: false }));
    let (file, entry) = listed_entry("src/a.rs".to_string(), DiskKind::File);
    assert_eq!(file.as_deref(), Some("src/a.rs"));
    assert!(entry.is_none());
    let (file, entry) = listed_entry("vendor/lib".to_string(), DiskKind::Folder);
    assert!(file.is_none());
    let entry = entry.unwrap();
    assert_eq!(entry.path, "vendor/lib");
    assert!(matches!(entry.kind, EntryKind::Unread { dir: true }));
    let (file, entry) = listed_entry("gone".to_string(), DiskKind::Other);
    assert!(file.is_none() && entry.is_none());
    let g = ghost("a/b".to_string(), false);
    assert_eq!(g.path, "a/b");
    assert!(g.ignored);
}

#[test]
fn globs() {
    assert!(glob(b"*.rs", b"main.rs"));
    assert!(!glob(b"*.rs", b"src/main.rs"));
    assert!(glob(b"a?c", b"abc"));
    assert!(!glob(b"a?c", b"a/c"));
    assert!(glob(b"", b""));
    assert!(glob(b"*", b""));
    assert!(!glob(b"", b"x"));
    assert!(glob(b"build/*", b"build/out"));
    assert!(!glob(b"build/*", b"build/out/deep"));
}

#[test]
fn gitignore_lines_become_rules() {
    let rules = parse_gitignore("# c\n\n/target/\n*.log\r\n!keep\nbuild/out\n", "sub");
    let seen: Vec<(&str, &str, bool, bool)> = rules
        .iter()
        .map(|r| (r.base.as_str(), r.pattern.as_str(), r.anchored, r.dir_only))
        .collect();
    assert_eq!(
        seen,
        vec![
            ("sub", "target", true, true),
            ("sub", "*.log", false, false),
            ("sub", "build/out", true, false),
        ]
    );
}

#[test]
fn rules_match_paths_and_names() {
    let rule = |base: &str, pattern: &str, anchored, dir_only| Rule {
        base: base.to_string(),
        pattern: pattern.to_string(),
        anchored,
        dir_only,
    };
    let target = rule("sub", "target", true, true);
    assert!(rule_matches(&target, "sub/target", "target", true));
    assert!(!rule_matches(&target, "sub/target", "target", false));
    assert!(!rule_matches(&target, "other/target", "target", true));
    assert!(!rule_matches(&target, "subtarget", "target", true));
    let logs = rule("", "*.log", false, false);
    assert!(rule_matches(&logs, "a/b/x.log", "x.log", false));
    assert!(!rule_matches(&logs, "a/x.logs", "x.logs", false));
    let top = rule("", "out", true, false);
    assert!(rule_matches(&top, "out", "out", true));
    assert!(!rule_matches(&top, "a/out", "out", true));
}

#[test]
fn walk_decisions() {
    let rules = parse_gitignore("/target/\n*.log\n", "sub");
    assert!(matches!(walk_step(&rules, "", ".git", true, false), WalkStep::Skip));
    match walk_step(&rules, "sub", "target", true, false) {
        WalkStep::Ignore(e) => {
            assert_eq!(e.path, "sub/target");
            assert!(matches!(e.kind, EntryKind::Unread { dir: true }));
            assert!(e.ignored);
        }
        _ => panic!("target should be ignored"),
    }
    match walk_step(&rules, "sub", "x.log", false, true) {
        WalkStep::Ignore(e) => assert!(matches!(e.kind, EntryKind::Unread { dir: false })),
        _ => panic!("x.log should be ignored"),
    }
    match walk_step(&rules, "sub", "src", true, false) {
        WalkStep::Descend(p) => assert_eq!(p, "sub/src"),
        _ => panic!("src should be walked into"),
    }
    match walk_step(&rules, "", "main.rs", false, true) {
        WalkStep::Read(p) => assert_eq!(p, "main.rs"),
        _ => panic!("main.rs should be read"),
    }
    assert!(matches!(walk_step(&rules, "", "link", false, false), WalkStep::Skip));
    assert!(matches!(walk_step(&rules, "", "odd.log", false, false), WalkStep::Skip));
    assert_eq!(join_rel("", "a"), "a");
    assert_eq!(join_rel("x/y", "a"), "x/y/a");
}

#[test]
fn expanding_takes_every_file_up_to_the_cap() {
    match expand_step("node_modules", "pkg", true, false, 0) {
        ExpandStep::Descend(p) => assert_eq!(p, "node_modules/pkg"),
        _ => panic!("a folder is walked into"),
    }
    match expand_step("node_modules/pkg", "index.js", false, true, 5) {
        ExpandStep::Take { path, last } => {
            assert_eq!(path, "node_modules/pkg/index.js");
            assert!(!last);
        }
        _ => panic!("a file is taken"),
    }
    match expand_step("a", "b", false, true, MAX_EXPAND_FILES - 1) {
        ExpandStep::Take { path, last } => {
            assert_eq!(path, "a/b");
            assert!(last);
        }
        _ => panic!("the file that reaches the cap is taken last"),
    }
    assert!(matches!(expand_step("a", "link", false, false, 0), ExpandStep::Skip));
}

#[test]
fn question_mark_takes_one_whole_character() {
    assert!(glob(b"?.md", "é.md".as_bytes()));
    assert!(glob(b"?.md", "中.md".as_bytes()));
    assert!(!glob(b"??.md", "é.md".as_bytes()));
    assert!(glob(b"a?c", "a😀c".as_bytes()));
    assert!(glob(b"*?", "é".as_bytes()));
    assert!(!glob(b"*??", "é".as_bytes()));
    assert!(!glob(b"?", b"/"));
    assert!(glob("é*".as_bytes(), "éclair".as_bytes()));
}

#[test]
fn folder_rules_hold_only_inside_the_folder() {
    let mut rules = parse_gitignore("*.log\n", "");
    let before = rules.len();
    let added = enter_folder(&mut rules, Some("build/\n# note\ntmp\n"), "sub");
    assert_eq!(added, 2);
    assert_eq!(rules.len(), before + 2);
    assert_eq!(rules[before].base, "sub");
    assert_eq!(rules[before].pattern, "build");
    assert!(rules[before].dir_only);
    leave_folder(&mut rules, added);
    assert_eq!(rules.len(), before);
    assert_eq!(rules[0].pattern, "*.log");
    assert_eq!(enter_folder(&mut rules, None, "x"), 0);
    assert_eq!(rules.len(), before);
}
