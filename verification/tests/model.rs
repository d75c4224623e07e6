use code_map::history::parse_log;
use code_map::model::{ColorMode, Kind, Tree};
use code_map::scan::{ghost, Entry, EntryKind, Line};

fn text(path: &str, bytes: u64, lines: usize) -> Entry {
    Entry {
        path: path.to_string(),
        kind: EntryKind::Text { bytes, lines: vec![Line { indent: 0, len: 4, comment: false }; lines] },
        ignored: false,
    }
}

fn binary(path: &str, bytes: u64) -> Entry {
    Entry { path: path.to_string(), kind: EntryKind::Binary { bytes }, ignored: false }
}

fn sample() -> Tree {
    let mut t = Tree::new("proj");
    t.insert(text("src/main.rs", 30, 3));
    t.insert(text("src/lib.rs", 20, 2));
    t.insert(binary("README.md", 10));
    t.insert(ghost("target".to_string(), true));
    t
}

const LOG: &str = "\u{0}1700000000\n\nsrc/main.rs\nREADME.md\n\u{0}1700086400\n\nsrc/main.rs\n";

#[test]
fn inserting_creates_parent_folders() {
    let t = sample();
    let paths: Vec<&str> = t.nodes.iter().map(|n| n.path.as_str()).collect();
    assert_eq!(paths, vec!["", "src", "src/main.rs", "src/lib.rs", "README.md", "target"]);
    assert_eq!(t.nodes[0].name, "proj");
    assert_eq!(t.nodes[1].kind, Kind::Dir);
    assert_eq!(t.nodes[1].children, vec![2, 3]);
    assert_eq!(t.nodes[0].children, vec![1, 4, 5]);
    assert_eq!(t.nodes[2].parent, Some(1));
    assert_eq!(t.nodes[2].depth, 2);
    assert_eq!(t.nodes[2].name, "main.rs");
    assert_eq!(t.nodes[5].kind, Kind::Unread { dir: true, loading: false });
    assert!(t.nodes[5].ignored);
    assert!(!t.is_empty());
    assert!(Tree::new("x").is_empty());
}

#[test]
fn inserted_entries_are_found_by_path() {
    let mut t = sample();
    assert_eq!(t.find("src/lib.rs"), Some(3));
    assert_eq!(t.find("src"), Some(1));
    assert_eq!(t.find(""), Some(0));
    assert_eq!(t.find("nope"), None);
    // inserting again writes into the same node
    t.insert(binary("src/lib.rs", 99));
    assert_eq!(t.nodes.len(), 6);
    assert_eq!(t.find("src/lib.rs"), Some(3));
    assert_eq!(t.nodes[3].kind, Kind::Binary);
    assert_eq!(t.nodes[3].bytes, 99);
}

#[test]
fn a_leading_slash_is_not_kept_in_the_node_path() {
    let mut t = Tree::new("p");
    t.insert(binary("/x", 1));
    assert_eq!(t.find("x"), Some(1));
    assert_eq!(t.find("/x"), None);
}

#[test]
fn totals_add_up_bottom_up() {
    let mut t = sample();
    assert!(t.update_totals());
    assert_eq!(t.nodes[0].total_lines, 5);
    assert_eq!(t.nodes[0].total_files, 3);
    assert_eq!(t.nodes[0].bytes, 60);
    assert_eq!(t.nodes[1].total_lines, 5);
    assert_eq!(t.nodes[1].total_files, 2);
    assert_eq!(t.nodes[1].bytes, 50);
    assert_eq!(t.nodes[2].total_lines, 3);
    assert_eq!(t.nodes[4].total_files, 1);
    assert_eq!(t.nodes[5].total_files, 0);
}

#[test]
fn entries_that_fit() {
    let t = sample();
    assert!(t.fits_entries(&vec![text("a/b/c", 1, 1)]));
    assert!(t.fits_entries(&Vec::new()));
}

#[test]
fn history_is_added_up_for_folders() {
    let mut t = sample();
    let h = parse_log(LOG);
    assert!(t.apply_history(&h));
    assert_eq!((t.nodes[2].commits, t.nodes[2].last_change), (2, 1_700_086_400));
    assert_eq!((t.nodes[4].commits, t.nodes[4].last_change), (1, 1_700_000_000));
    assert_eq!(t.nodes[3].commits, 0);
    assert_eq!((t.nodes[1].commits, t.nodes[1].last_change), (2, 1_700_086_400));
    assert_eq!((t.nodes[0].commits, t.nodes[0].last_change), (3, 1_700_086_400));
}

#[test]
fn heat_ranks_files_by_the_color_mode() {
    let mut t = sample();
    let mut h = parse_log(LOG);
    h.record("src/lib.rs".to_string(), 1_600_000_000);
    t.apply_history(&h);
    t.compute_heat(ColorMode::Churn);
    // equal values share a rank
    assert_eq!(t.nodes[2].heat_rank, Some(2));
    assert_eq!(t.nodes[3].heat_rank, Some(0));
    assert_eq!(t.nodes[4].heat_rank, Some(0));
    assert_eq!(t.nodes[1].heat_rank, None);
    assert_eq!(t.heat_scale, 2);
    t.compute_heat(ColorMode::Recent);
    assert_eq!(t.nodes[2].heat_rank, Some(2));
    assert_eq!(t.nodes[4].heat_rank, Some(1));
    assert_eq!(t.nodes[3].heat_rank, Some(0));
    t.compute_heat(ColorMode::FileType);
    assert!(t.nodes.iter().all(|n| n.heat_rank.is_none()));
}

#[test]
fn search_marks_matches_and_their_folders() {
    let mut t = sample();
    assert_eq!(t.search("MAIN"), vec![2]);
    assert!(t.nodes[2].lit && t.nodes[2].on_path);
    assert!(!t.nodes[1].lit && t.nodes[1].on_path);
    assert!(t.nodes[0].on_path);
    assert!(!t.nodes[4].on_path);
    // a match inside a matching folder is not listed again
    assert_eq!(t.search("src"), vec![1]);
    assert!(t.nodes[2].lit && t.nodes[3].lit);
    // every word must appear
    assert_eq!(t.search("src lib"), vec![3]);
    assert_eq!(t.search("src nothing"), Vec::<usize>::new());
    // no words: everything is lit again
    assert!(t.search("   ").is_empty());
    assert!(t.nodes.iter().all(|n| n.lit && n.on_path));
}

#[test]
fn top_level_folders() {
    let t = sample();
    assert_eq!(t.top_level(0), 0);
    assert_eq!(t.top_level(1), 1);
    assert_eq!(t.top_level(3), 1);
    assert_eq!(t.top_level(4), 4);
}

#[test]
fn unread_nodes_are_read_once_and_grafted() {
    let mut t = sample();
    assert_eq!(t.start_loading(5).as_deref(), Some("target"));
    assert_eq!(t.nodes[5].kind, Kind::Unread { dir: true, loading: true });
    assert_eq!(t.start_loading(5), None);
    assert_eq!(t.start_loading(2), None);
    let mut inner = binary("target/debug/x.o", 7);
    inner.ignored = true;
    t.graft(5, vec![inner]);
    assert_eq!(t.nodes[5].kind, Kind::Dir);
    assert_eq!(t.find("target/debug/x.o"), Some(7));
    assert_eq!(t.nodes[7].parent, Some(6));
    assert!(t.nodes[7].ignored);
    assert!(t.nodes[6].ignored);
    assert!(t.update_totals());
    assert_eq!(t.nodes[5].total_files, 1);
    assert_eq!(t.nodes[5].bytes, 7);
}

#[test]
fn lit_below_a_match_and_on_path_above_it() {
    let mut t = Tree::new("p");
    t.insert(text("a/b/c.rs", 1, 1));
    t.insert(text("a/d.rs", 1, 1));
    // nodes: "" a a/b a/b/c.rs a/d.rs
    assert_eq!(t.search("A/B"), vec![2]);
    let lit: Vec<bool> = t.nodes.iter().map(|n| n.lit).collect();
    let on_path: Vec<bool> = t.nodes.iter().map(|n| n.on_path).collect();
    // lit: the match and everything below it
    assert_eq!(lit, vec![false, false, true, true, false]);
    // on the path: lit, or a match somewhere below
    assert_eq!(on_path, vec![true, true, true, true, false]);
}

#[test]
fn history_applied_twice_is_applied_once() {
    let mut t = sample();
    let h = parse_log(LOG);
    assert!(t.apply_history(&h));
    let once: Vec<(u32, i64)> = t.nodes.iter().map(|n| (n.commits, n.last_change)).collect();
    assert!(t.apply_history(&h));
    let twice: Vec<(u32, i64)> = t.nodes.iter().map(|n| (n.commits, n.last_change)).collect();
    assert_eq!(once, twice);
}

#[test]
fn inserting_keeps_every_node_in_its_place() {
    let mut t = sample();
    let before: Vec<(String, Option<usize>)> = t.nodes.iter().map(|n| (n.path.clone(), n.parent)).collect();
    t.insert(text("src/deep/new.rs", 1, 1));
    // "src" was there; "src/deep" and "src/deep/new.rs" were not
    assert_eq!(t.nodes.len(), before.len() + 2);
    let after: Vec<(String, Option<usize>)> = t.nodes.iter().take(before.len()).map(|n| (n.path.clone(), n.parent)).collect();
    assert_eq!(before, after);
    assert_eq!(t.find("src/deep/new.rs"), Some(7));
    assert_eq!(t.find("src/deep"), Some(6));
}
