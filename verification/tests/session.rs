use code_map::history::parse_log;
use code_map::i18n::Language;
use code_map::model::{ColorMode, Kind};
use code_map::scan::{ghost, Entry, EntryKind, Line, ProjectScan};
use code_map::session::{Click, DetailLevel, MapState, MapStatus};

const LOG: &str = "\u{0}1700000000\n\nsrc/main.rs\nREADME.md\n\u{0}1700086400\n\nsrc/main.rs\n";
const DAY: i64 = 86_400;

fn project() -> ProjectScan {
    let lines = vec![
        Line { indent: 0, len: 10, comment: false },
        Line { indent: 0, len: 8, comment: true },
        Line { indent: 4, len: 6, comment: false },
    ];
    ProjectScan {
        entries: vec![
            Entry { path: "src/main.rs".to_string(), kind: EntryKind::Text { bytes: 30, lines }, ignored: false },
            Entry {
                path: "src/lib.rs".to_string(),
                kind: EntryKind::Text { bytes: 20, lines: vec![Line { indent: 0, len: 1, comment: false }; 2] },
                ignored: false,
            },
            Entry { path: "README.md".to_string(), kind: EntryKind::Binary { bytes: 10 }, ignored: false },
            ghost("target".to_string(), true),
        ],
        used_git: true,
    }
}

fn opened() -> MapState {
    let mut m = MapState::new(Language::English);
    m.open("proj", "/home/u/proj");
    assert!(m.project_scanned(project(), "0.25"));
    m
}

#[test]
fn status_follows_the_scan() {
    let mut m = MapState::new(Language::English);
    assert_eq!(m.status_message(), "No folder opened");
    m.open("proj", "/home/u/proj");
    assert_eq!(m.pending, 1);
    assert_eq!(m.status_message(), "Scanning /home/u/proj ...");
    assert!(m.project_scanned(project(), "1.50"));
    // the scan is answered and the history is asked for
    assert_eq!(m.pending, 1);
    assert!(matches!(m.status, MapStatus::Scanned { used_git: true, .. }));
    assert!(m.needs_layout && m.needs_fit);
    assert_eq!(m.summary(), "3 files, 5 lines");
    assert_eq!(m.status_message(), "3 files, 5 lines, scanned in 1.50s (ignore rules from git)");
    m.history_read(parse_log(LOG));
    assert_eq!(m.pending, 0);
    assert_eq!(m.status_message(), "3 files, 5 lines, 2 commits of history");
    assert_eq!(m.tree.nodes[1].commits, 2);
}

#[test]
fn failures_are_reported() {
    let mut m = MapState::new(Language::English);
    m.open("p", "/p");
    m.scan_failed("permission denied".to_string());
    assert_eq!(m.pending, 0);
    assert_eq!(m.status_message(), "Could not scan: permission denied");
    m.history_failed("not a repo".to_string());
    assert_eq!(m.pending, 0);
    assert_eq!(m.status_message(), "No git history: not a repo");
}

#[test]
fn search_then_enter_goes_round_the_matches() {
    let mut m = opened();
    m.set_search("  RS ");
    assert_eq!(m.search, "RS");
    assert_eq!(m.matches, vec![2, 3]);
    assert_eq!(m.status_message(), "2 matches for \"RS\". Press Enter to fly to the next one.");
    assert_eq!(m.next_match(), Some(2));
    assert_eq!(m.selected, Some(2));
    assert_eq!(m.next_match(), Some(3));
    assert_eq!(m.next_match(), Some(2));
    m.set_search("");
    assert!(m.matches.is_empty());
    assert_eq!(m.next_match(), None);
    assert_eq!(m.status_message(), "3 files, 5 lines");
}

#[test]
fn heat_modes_ask_for_history() {
    let mut m = opened();
    m.set_color_mode(ColorMode::Churn);
    assert_eq!(m.status_message(), "Reading git history ...");
    m.history_read(parse_log(LOG));
    assert_eq!(m.tree.nodes[2].heat_rank, Some(1));
    assert_eq!(m.tree.nodes[4].heat_rank, Some(0));
    m.set_color_mode(ColorMode::FileType);
    assert!(m.tree.nodes.iter().all(|n| n.heat_rank.is_none()));
}

#[test]
fn inspector_details() {
    let mut m = opened();
    m.history_read(parse_log(LOG));
    let now = 1_700_086_400 + DAY;
    let info = m.info(2, now);
    assert_eq!(info.title, "main.rs");
    assert_eq!(info.path, "src/main.rs");
    assert_eq!(
        info.details,
        "Text file\n3 lines (1 comment lines)\n30 bytes\n\nGit: 2 commits\nlast changed yesterday"
    );
    let info = m.info(4, now);
    assert_eq!(info.details, "Binary or very large file\n10 bytes\n\nGit: 1 commits\nlast changed 2 days ago");
    let info = m.info(3, now);
    assert_eq!(info.details, "Text file\n2 lines (0 comment lines)\n20 bytes\n\nGit: no commits in history");
    let info = m.info(1, now);
    assert_eq!(
        info.details,
        "Folder\n2 files\n5 lines\n50 bytes\n2 direct children\n\nGit: 2 commits\nlast changed yesterday"
    );
    let info = m.info(0, now);
    assert_eq!(info.title, "proj");
    assert_eq!(info.path, "/home/u/proj");
    let info = m.info(5, now);
    assert_eq!(info.details, "Ignored folder\nNot read yet. Click it to read it.");
}

#[test]
fn inspector_without_history() {
    let m = opened();
    let info = m.info(4, 0);
    assert_eq!(info.details, "Binary or very large file\n10 bytes");
}

#[test]
fn clicking_reads_ignored_folders_and_double_click_flies() {
    let mut m = opened();
    let pending = m.pending;
    match m.click(5, 1) {
        Click::Read(path) => assert_eq!(path, "target"),
        _ => panic!("the ignored folder should be read"),
    }
    assert_eq!(m.pending, pending + 1);
    assert_eq!(m.selected, Some(5));
    assert_eq!(m.tree.nodes[5].kind, Kind::Unread { dir: true, loading: true });
    assert!(matches!(m.click(5, 2), Click::Stay));
    assert!(matches!(m.click(2, 2), Click::Fly));
    assert!(matches!(m.click(2, 1), Click::Stay));
    assert_eq!(m.selected, Some(2));
    let mut inside = Entry { path: "target/out.bin".to_string(), kind: EntryKind::Binary { bytes: 4 }, ignored: true };
    inside.ignored = true;
    m.ignored_read("target", vec![inside]);
    assert_eq!(m.pending, pending);
    assert_eq!(m.selected, Some(5));
    assert_eq!(m.tree.nodes[5].kind, Kind::Dir);
    assert_eq!(m.tree.find("target/out.bin"), Some(6));
    assert_eq!(m.status_message(), "Read ignored target: 1 files");
    let info = m.info(6, 0);
    assert_eq!(info.details, "Binary or very large file\n4 bytes\n\nMatched by .gitignore");
}

#[test]
fn reads_of_unknown_paths_change_nothing() {
    let mut m = opened();
    let before = m.tree.nodes.len();
    m.ignored_read("elsewhere", Vec::new());
    assert_eq!(m.tree.nodes.len(), before);
    assert!(matches!(m.status, MapStatus::Scanned { .. }));
}

#[test]
fn a_new_search_is_kept_after_a_graft() {
    let mut m = opened();
    m.set_search("bin");
    assert!(m.matches.is_empty());
    m.click(5, 1);
    m.ignored_read(
        "target",
        vec![Entry { path: "target/x.bin".to_string(), kind: EntryKind::Binary { bytes: 1 }, ignored: true }],
    );
    assert_eq!(m.matches, vec![6]);
    assert!(m.needs_layout);
}

#[test]
fn settings() {
    let mut m = opened();
    assert!(m.set_language(Language::SimplifiedChinese));
    assert!(!m.set_language(Language::SimplifiedChinese));
    assert_eq!(m.summary(), "3 个文件，5 行");
    assert_eq!(m.status_message(), "3 个文件，5 行，扫描耗时 0.25 秒（使用 Git 忽略规则）");
    m.set_show_ignored(false);
    assert!(!m.show_ignored && m.needs_layout);
    assert!(m.set_detail_level(DetailLevel::Ultra));
    assert!(!m.set_detail_level(DetailLevel::Ultra));
    assert_eq!(DetailLevel::from_index(1), DetailLevel::High);
    assert_eq!(DetailLevel::from_index(3), DetailLevel::Custom);
    assert_eq!(DetailLevel::from_index(9), DetailLevel::Normal);
    assert_eq!(ColorMode::from_index(1), ColorMode::Recent);
    assert_eq!(ColorMode::from_index(2), ColorMode::Churn);
    assert_eq!(ColorMode::from_index(0), ColorMode::FileType);
    m.select(3);
    assert_eq!(m.selected, Some(3));
    m.open("other", "/other");
    assert_eq!(m.selected, None);
    assert_eq!(m.tree.nodes.len(), 1);
    assert_eq!(m.status_message(), "正在扫描 /other……");
}

#[test]
fn enter_steps_the_cursor_by_one_and_heat_scale_follows_the_ranking() {
    let mut m = opened();
    m.set_search("RS");
    assert_eq!(m.matches.len(), 2);
    assert_eq!(m.next_match(), Some(2));
    assert_eq!(m.next_match(), Some(3));
    assert_eq!(m.next_match(), Some(2));
    assert_eq!(m.match_cursor, 3);
    // two ranked files: the ranks are divided by one
    m.set_color_mode(ColorMode::Churn);
    m.history_read(parse_log(LOG));
    assert_eq!(m.tree.heat_scale, 1);
    // nothing ranked: the scale stays
    m.set_color_mode(ColorMode::FileType);
    assert_eq!(m.tree.heat_scale, 1);
}

#[test]
fn reading_an_ignored_folder_searches_again() {
    let mut m = opened();
    m.set_search("out");
    assert!(m.matches.is_empty());
    m.click(5, 1);
    m.ignored_read(
        "target",
        vec![
            Entry { path: "target/out.bin".to_string(), kind: EntryKind::Binary { bytes: 4 }, ignored: true },
            Entry { path: "target/out2.bin".to_string(), kind: EntryKind::Binary { bytes: 4 }, ignored: true },
        ],
    );
    assert_eq!(m.matches, vec![6, 7]);
}
