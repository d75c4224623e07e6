use code_map::history::{parse_log, parse_log_output, History, MAX_COMMITS};

#[test]
fn counts_commits_and_last_change_per_file() {
    let log = "\u{0}1700000000\n\nsrc/main.rs\nREADME.md\n\u{0}1700086400\n\nsrc/main.rs\n";
    let h = parse_log(log);
    assert_eq!(h.commits_read, 2);
    assert_eq!(h.len(), 2);
    assert_eq!(h.get("src/main.rs"), Some((2, 1_700_086_400)));
    assert_eq!(h.get("README.md"), Some((1, 1_700_000_000)));
    assert_eq!(h.get("other"), None);
}

#[test]
fn last_change_is_the_latest_time_whatever_the_order() {
    let log = "\u{0}300\n\na\n\u{0}100\n\na\n\u{0}200\n\na\n";
    let h = parse_log(log);
    assert_eq!(h.get("a"), Some((3, 300)));
}

#[test]
fn skips_blank_commits_and_bad_times() {
    let h = parse_log("");
    assert_eq!(h.commits_read, 0);
    assert_eq!(h.len(), 0);
    let h = parse_log("\u{0}\u{0}  \n\u{0}abc\n\nfile\n");
    assert_eq!(h.commits_read, 0);
    assert_eq!(h.get("file"), None);
    let h = parse_log("\u{0}5\r\n\r\n  a.txt \r\n\r\n");
    assert_eq!(h.commits_read, 1);
    assert_eq!(h.get("a.txt"), Some((1, 5)));
    // a commit that touched nothing still counts
    let h = parse_log("\u{0}7\n");
    assert_eq!(h.commits_read, 1);
    assert_eq!(h.len(), 0);
}

#[test]
fn recording_by_hand() {
    let mut h = History::new();
    h.record("x".to_string(), 10);
    h.record("x".to_string(), 5);
    h.record("y".to_string(), -3);
    assert_eq!(h.get("x"), Some((2, 10)));
    assert_eq!(h.get("y"), Some((1, -3)));
    assert_eq!(h.len(), 2);
    assert_eq!(MAX_COMMITS, 20_000);
}

#[test]
fn a_path_counts_once_per_line_and_never_more_than_the_log_is_long() {
    let log = "\u{0}5\na\na\n\u{0}7\na\n";
    let h = parse_log(log);
    assert_eq!(h.get("a"), Some((3, 7)));
    assert!((h.get("a").unwrap().0 as usize) <= log.chars().count());
    assert_eq!(h.commits_read, 2);
}

#[test]
fn raw_git_output_is_decoded_then_read() {
    let raw = b"\x001700000000\n\nsrc/ma\xffin.rs\nREADME.md\n";
    let h = parse_log_output(raw);
    assert_eq!(h.commits_read, 1);
    assert_eq!(h.get("src/ma\u{fffd}in.rs"), Some((1, 1_700_000_000)));
    assert_eq!(h.get("README.md"), Some((1, 1_700_000_000)));
}
