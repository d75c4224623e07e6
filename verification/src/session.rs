//! The state of an open map and the decisions made on it: what the status
//! line and the inspector say, what a search selects, and how results of
//! background work (the scan, an ignored folder read on request, the git
//! history) change the tree. Drawing, the camera and the threads that do
//! the reading belong to the application around it.

use vstd::prelude::*;
use crate::history::History;
use crate::i18n::{
    age_text, binary_details_text, bytes_text, expanded_ignored_text, folder_details_text, git_details_text,
    history_failed_text, ignored_details_text, matched_gitignore_text, no_commits_text, no_folder_text,
    reading_history_text, scan_failed_text, scanned_text, scanning_text, search_matches_text, summary_text,
    text_file_details_text, Language,
};
use crate::model::{
    commits_fit, fresh_node, heat_scale_after, lemma_history_same_shape, same_history_shape, sub_commits, graft_spec, heated, lemma_match_list_in_order, insert_all, match_list, parts_total, path_index, query_words, searched,
    totals_fit, with_history, with_totals, ColorMode, EntryView, Kind, NodeView, Tree,
};
use crate::scan::{Entry, Line, ProjectScan};
use crate::text::{decimal, fmt_num, grouped, trim_string, trim_white};

verus! {

/// What the status line says.
pub enum MapStatus {
    NoFolder,
    Scanning,
    ReadingHistory,
    Summary,
    Search,
    /// The scan finished, in `seconds` (as shown).
    Scanned { seconds: String, used_git: bool },
    ScanFailed(String),
    ExpandedIgnored { path: String, count: usize },
    HistoryFailed(String),
}

/// What a click on a node asks of the caller, besides selecting it.
pub enum Click {
    /// Read the ignored folder or file at this path in the background.
    Read(String),
    /// Fly the camera to the node (a double click).
    Fly,
    /// Nothing more.
    Stay,
}

/// What the inspector panel shows about a node.
#[derive(Clone, Debug)]
pub struct NodeInfo {
    pub title: String,
    pub path: String,
    pub details: String,
}

/// Rendering detail chosen in the toolbar.
#[derive(Clone, Copy, Debug, PartialEq, Eq, Structural)]
pub enum DetailLevel {
    Normal,
    High,
    Ultra,
    Custom,
}

impl DetailLevel {
    /// The level at a position of the toolbar's detail selector.
    pub fn from_index(index: usize) -> (res: Self)
        ensures
            res == (if index == 1 {
                DetailLevel::High
            } else if index == 2 {
                DetailLevel::Ultra
            } else if index == 3 {
                DetailLevel::Custom
            } else {
                DetailLevel::Normal
            }),
    {
        match index {
            1 => DetailLevel::High,
            2 => DetailLevel::Ultra,
            3 => DetailLevel::Custom,
            _ => DetailLevel::Normal,
        }
    }
}

impl ColorMode {
    /// The mode at a position of the toolbar's color selector.
    pub fn from_index(index: usize) -> (res: Self)
        ensures
            res == (if index == 1 {
                ColorMode::Recent
            } else if index == 2 {
                ColorMode::Churn
            } else {
                ColorMode::FileType
            }),
    {
        match index {
            1 => ColorMode::Recent,
            2 => ColorMode::Churn,
            _ => ColorMode::FileType,
        }
    }
}

/// Every node with its git activity applied.
pub open spec fn with_history_all(t: Seq<NodeView>, h: Map<Seq<char>, (u32, i64)>) -> Seq<NodeView> {
    Seq::new(t.len(), |i: int| with_history(t, h, i))
}

/// Applying a history a second time changes nothing: the tree is the one
/// the first application gave, and its counts fit exactly when they did.
pub proof fn lemma_history_twice(t: Seq<NodeView>, h: Map<Seq<char>, (u32, i64)>)
    ensures
        with_history_all(with_history_all(t, h), h) == with_history_all(t, h),
        commits_fit(with_history_all(t, h), h) == commits_fit(t, h),
{
    let u = with_history_all(t, h);
    assert(same_history_shape(t, u));
    assert forall|i: int| 0 <= i < t.len() implies #[trigger] with_history(u, h, i) == with_history(t, h, i) by {
        lemma_history_same_shape(t, u, h, i);
    }
    assert(with_history_all(u, h) =~= u);
    assert forall|i: int| 0 <= i < t.len() implies #[trigger] sub_commits(u, h, i) == sub_commits(t, h, i) by {
        lemma_history_same_shape(t, u, h, i);
    }
}

/// Every node with its heat rank for `mode`.
pub open spec fn heated_all(t: Seq<NodeView>, mode: ColorMode) -> Seq<NodeView> {
    Seq::new(t.len(), |i: int| heated(t, mode, i))
}

/// Every node marked for the search words `ws`.
pub open spec fn searched_all(t: Seq<NodeView>, ws: Seq<Seq<char>>) -> Seq<NodeView> {
    Seq::new(t.len(), |i: int| searched(t, ws, i))
}

/// Every node with its totals.
pub open spec fn totaled_all(t: Seq<NodeView>) -> Seq<NodeView> {
    Seq::new(t.len(), |i: int| with_totals(t, i))
}

/// The matches of a search for `query` in `t`, in tree order.
pub open spec fn matches_of(t: Seq<NodeView>, query: Seq<char>) -> Seq<usize> {
    if query_words(query).len() == 0 {
        Seq::<usize>::empty()
    } else {
        match_list(t, query_words(query), t.len() as int)
    }
}

/// The tree after it changed shape: the history applied again, the heat
/// ranked again for `mode`, and the search run again when there is one.
pub open spec fn refreshed(
    t: Seq<NodeView>,
    h: Option<Map<Seq<char>, (u32, i64)>>,
    mode: ColorMode,
    search: Seq<char>,
) -> Seq<NodeView> {
    let t2 = heated_all(
        match h {
            Some(h) => with_history_all(t, h),
            None => t,
        },
        mode,
    );
    if search.len() == 0 {
        t2
    } else {
        searched_all(t2, query_words(search))
    }
}

/// The tree with the history applied, when there is one.
pub open spec fn with_history_opt(t: Seq<NodeView>, h: Option<Map<Seq<char>, (u32, i64)>>) -> Seq<NodeView> {
    match h {
        Some(h) => with_history_all(t, h),
        None => t,
    }
}

/// The folder commit counts fit, or there is no history to apply.
pub open spec fn history_fits(t: Seq<NodeView>, h: Option<Map<Seq<char>, (u32, i64)>>) -> bool {
    match h {
        Some(h) => commits_fit(t, h),
        None => true,
    }
}

/// The tree after a scan's entries were put in and totalled.
pub open spec fn scanned_tree(t: Seq<NodeView>, es: Seq<EntryView>) -> Seq<NodeView> {
    totaled_all(insert_all(t, es))
}

/// One background job less (never below zero).
pub open spec fn one_less(n: usize) -> usize {
    if n > 0 {
        (n - 1) as usize
    } else {
        0
    }
}

/// One background job more (stuck at the largest count).
pub open spec fn one_more(n: usize) -> usize {
    if n < usize::MAX {
        (n + 1) as usize
    } else {
        n
    }
}

/// Comment lines among `ls`.
pub open spec fn comment_count(ls: Seq<Line>) -> nat
    decreases ls.len(),
{
    if ls.len() == 0 {
        0
    } else {
        comment_count(ls.drop_last()) + if ls.last().comment {
            1nat
        } else {
            0nat
        }
    }
}

/// `x` held to the 64-bit range.
pub open spec fn clamp_i64(x: int) -> i64 {
    if x < i64::MIN {
        i64::MIN
    } else if x > i64::MAX {
        i64::MAX
    } else {
        x as i64
    }
}

/// Inspector details of node `n`: what it is, its git activity once the
/// history is read, and whether `.gitignore` matched it.
pub open spec fn details_text(lang: Language, n: NodeView, has_history: bool, now: i64) -> Seq<char> {
    let base = match n.kind {
        Kind::Dir => folder_details_text(
            lang,
            grouped(n.total_files as nat),
            grouped(n.total_lines as nat),
            bytes_text(lang, n.bytes as nat),
            n.children.len(),
        ),
        Kind::Text => text_file_details_text(
            lang,
            grouped(n.lines.len()),
            grouped(comment_count(n.lines)),
            bytes_text(lang, n.bytes as nat),
        ),
        Kind::Binary => binary_details_text(lang, bytes_text(lang, n.bytes as nat)),
        Kind::Unread { dir, loading } => ignored_details_text(lang, dir, loading),
    };
    let unread = n.kind is Unread;
    let git = if has_history && !unread {
        if n.commits > 0 {
            git_details_text(lang, grouped(n.commits as nat), age_text(lang, clamp_i64(now - n.last_change) as int))
        } else {
            no_commits_text(lang)
        }
    } else {
        Seq::<char>::empty()
    };
    let ignore = if n.ignored && !unread {
        matched_gitignore_text(lang)
    } else {
        Seq::<char>::empty()
    };
    base + git + ignore
}

/// How many of `lines` are comment lines.
fn count_comments(lines: &Vec<Line>) -> (res: usize)
    ensures
        res == comment_count(lines@),
{
    let mut count: usize = 0;
    let mut k: usize = 0;
    while k < lines.len()
        invariant
            k <= lines@.len(),
            count == comment_count(lines@.take(k as int)),
            count <= k,
        decreases lines.len() - k,
    {
        proof {
            assert(lines@.take(k + 1).drop_last() =~= lines@.take(k as int));
        }
        if lines[k].comment {
            count = count + 1;
        }
        k = k + 1;
    }
    proof {
        assert(lines@.take(k as int) =~= lines@);
    }
    count
}

/// The seconds from `then` to `now`, held to the 64-bit range.
fn seconds_between(then: i64, now: i64) -> (res: i64)
    ensures
        res == clamp_i64(now - then),
{
    let d = now as i128 - then as i128;
    if d < i64::MIN as i128 {
        i64::MIN
    } else if d > i64::MAX as i128 {
        i64::MAX
    } else {
        d as i64
    }
}

/// Enter after Enter: the match selected next is the one after the match
/// selected last, going round (the cursor kept is its position plus one).
pub proof fn lemma_next_match_goes_round(cursor: int, n: int)
    requires
        0 <= cursor,
        n > 0,
    ensures
        (cursor % n + 1) % n == (cursor + 1) % n,
{
    vstd::arithmetic::div_mod::lemma_add_mod_noop(cursor, 1, n);
    if n > 1 {
        vstd::arithmetic::div_mod::lemma_small_mod(1, n as nat);
    } else {
        vstd::arithmetic::div_mod::lemma_mod_self_0(1);
        assert(1int % n == 0);
    }
}

/// The map: its tree and everything the status line, the inspector and the
/// search work from.
pub struct MapState {
    pub tree: Tree,
    /// How the opened folder is shown (the root node's path is empty).
    pub root_label: String,
    pub show_ignored: bool,
    /// The layout must be redone before the next draw.
    pub needs_layout: bool,
    /// The camera should fit the whole map once it is laid out.
    pub needs_fit: bool,
    pub selected: Option<usize>,
    pub color_mode: ColorMode,
    pub detail_level: DetailLevel,
    pub language: Language,
    pub history: Option<History>,
    /// The search query, trimmed.
    pub search: String,
    /// Nodes matching the search.
    pub matches: Vec<usize>,
    /// Position of the next match to fly to.
    pub match_cursor: usize,
    /// Background jobs not answered yet.
    pub pending: usize,
    pub status: MapStatus,
}

impl MapState {
    /// The tree and the history are well formed and every node the state
    /// points at exists.
    pub open spec fn wf(&self) -> bool {
        &&& self.tree.wf()
        &&& (self.history matches Some(h) ==> h.wf())
        &&& forall|j: int| 0 <= j < self.matches@.len() ==> #[trigger] self.matches@[j] < self.tree@.len()
        &&& (self.selected matches Some(i) ==> i < self.tree@.len())
    }

    /// The activity of the history, once it is read.
    pub open spec fn activity(&self) -> Option<Map<Seq<char>, (u32, i64)>> {
        match self.history {
            Some(h) => Some(h.files()),
            None => None,
        }
    }

    /// The summary line: files, lines and the commits read.
    pub open spec fn summary_spec(&self) -> Seq<char> {
        summary_text(
            self.language,
            grouped(self.tree@[0].total_files as nat),
            grouped(self.tree@[0].total_lines as nat),
            match self.history {
                Some(h) => Some(grouped(h.commits_read as nat)),
                None => None,
            },
        )
    }

    /// The status line.
    pub open spec fn status_spec(&self) -> Seq<char> {
        match self.status {
            MapStatus::NoFolder => no_folder_text(self.language),
            MapStatus::Scanning => scanning_text(self.language, self.root_label@),
            MapStatus::ReadingHistory => reading_history_text(self.language),
            MapStatus::Summary => self.summary_spec(),
            MapStatus::Search => search_matches_text(
                self.language,
                grouped(self.matches@.len()),
                self.search@,
            ),
            MapStatus::Scanned { seconds, used_git } => scanned_text(
                self.language,
                self.summary_spec(),
                seconds@,
                used_git,
            ),
            MapStatus::ScanFailed(e) => scan_failed_text(self.language, e@),
            MapStatus::ExpandedIgnored { path, count } => expanded_ignored_text(
                self.language,
                path@,
                grouped(count as nat),
            ),
            MapStatus::HistoryFailed(e) => history_failed_text(self.language, e@),
        }
    }

    /// Nothing opened yet.
    pub fn new(language: Language) -> (res: Self)
        ensures
            res.wf(),
            res.tree@ == seq![fresh_node(Seq::<char>::empty(), Seq::<char>::empty(), None, 0, false)],
            res.language == language,
            res.status is NoFolder,
            res.selected is None,
            res.history is None,
            res.matches@.len() == 0,
            res.search@.len() == 0,
            res.pending == 0,
            res.show_ignored,
            res.color_mode == ColorMode::FileType,
            res.detail_level == DetailLevel::Normal,
    {
        let tree = Tree::new("");
        proof {
            reveal_strlit("");
            assert(""@ =~= Seq::<char>::empty());
            assert(tree@ =~= seq![fresh_node(Seq::<char>::empty(), Seq::<char>::empty(), None, 0, false)]);
        }
        MapState {
            tree,
            root_label: String::new(),
            show_ignored: true,
            needs_layout: false,
            needs_fit: false,
            selected: None,
            color_mode: ColorMode::FileType,
            detail_level: DetailLevel::Normal,
            language,
            history: None,
            search: String::new(),
            matches: Vec::new(),
            match_cursor: 0,
            pending: 0,
            status: MapStatus::NoFolder,
        }
    }

    /// Starts over with the folder `name`, shown as `root_label`, while its
    /// scan runs. Matches of an earlier folder are dropped with its tree.
    pub fn open(&mut self, name: &str, root_label: &str)
        ensures
            final(self).wf(),
            final(self).tree@ == seq![fresh_node(name@, Seq::<char>::empty(), None, 0, false)],
            final(self).root_label@ == root_label@,
            final(self).selected is None,
            final(self).history is None,
            final(self).matches@.len() == 0,
            final(self).match_cursor == 0,
            final(self).pending == 1,
            final(self).status is Scanning,
            final(self).search == old(self).search,
            final(self).language == old(self).language,
            final(self).color_mode == old(self).color_mode,
            final(self).show_ignored == old(self).show_ignored,
            final(self).detail_level == old(self).detail_level,
    {
        self.tree = Tree::new(name);
        self.root_label = String::from_str(root_label);
        self.selected = None;
        self.history = None;
        self.matches = Vec::new();
        self.match_cursor = 0;
        self.pending = 1;
        self.status = MapStatus::Scanning;
    }

    /// The summary line: files, lines and the commits read.
    pub fn summary(&self) -> (res: String)
        requires
            self.wf(),
        ensures
            res@ == self.summary_spec(),
    {
        proof {
            self.tree.lemma_view();
            self.tree.lemma_has_root();
        }
        let files = fmt_num(self.tree.nodes[0].total_files);
        let lines = fmt_num(self.tree.nodes[0].total_lines);
        match &self.history {
            Some(h) => {
                let commits = fmt_num(h.commits_read as u64);
                self.language.summary(files.as_str(), lines.as_str(), Some(commits.as_str()))
            },
            None => self.language.summary(files.as_str(), lines.as_str(), None),
        }
    }

    /// The status line.
    pub fn status_message(&self) -> (res: String)
        requires
            self.wf(),
        ensures
            res@ == self.status_spec(),
    {
        match &self.status {
            MapStatus::NoFolder => String::from_str(self.language.no_folder()),
            MapStatus::Scanning => self.language.scanning(self.root_label.as_str()),
            MapStatus::ReadingHistory => self.language.reading_history(),
            MapStatus::Summary => self.summary(),
            MapStatus::Search => {
                let count = fmt_num(self.matches.len() as u64);
                self.language.search_matches(count.as_str(), self.search.as_str())
            },
            MapStatus::Scanned { seconds, used_git } => {
                let summary = self.summary();
                self.language.scanned(summary.as_str(), seconds.as_str(), *used_git)
            },
            MapStatus::ScanFailed(e) => self.language.scan_failed(e.as_str()),
            MapStatus::ExpandedIgnored { path, count } => {
                let n = fmt_num(*count as u64);
                self.language.expanded_ignored(path.as_str(), n.as_str())
            },
            MapStatus::HistoryFailed(e) => self.language.history_failed(e.as_str()),
        }
    }

    /// Switches the language; true when it changed, so that the status line
    /// and the inspector are to be redone.
    pub fn set_language(&mut self, language: Language) -> (res: bool)
        ensures
            res == (old(self).language != language),
            final(self).language == language,
            final(self).tree == old(self).tree,
            final(self).status == old(self).status,
            final(self).selected == old(self).selected,
            final(self).matches == old(self).matches,
            final(self).history == old(self).history,
    {
        if self.language == language {
            return false;
        }
        self.language = language;
        true
    }

    /// Shows or hides ignored entries; the layout is redone.
    pub fn set_show_ignored(&mut self, show: bool)
        ensures
            final(self).show_ignored == show,
            final(self).needs_layout,
            final(self).tree == old(self).tree,
            final(self).status == old(self).status,
            final(self).selected == old(self).selected,
            final(self).matches == old(self).matches,
    {
        self.show_ignored = show;
        self.needs_layout = true;
    }

    /// Selects node `index`.
    pub fn select(&mut self, index: usize)
        requires
            old(self).wf(),
            index < old(self).tree@.len(),
        ensures
            final(self).wf(),
            final(self).selected == Some(index),
            final(self).tree == old(self).tree,
            final(self).status == old(self).status,
            final(self).matches == old(self).matches,
    {
        self.selected = Some(index);
    }

    /// Colors by `mode`: files are ranked again. Asks for the history (in
    /// the status line) when the mode needs it and it is not read yet.
    pub fn set_color_mode(&mut self, mode: ColorMode)
        requires
            old(self).wf(),
        ensures
            final(self).wf(),
            final(self).color_mode == mode,
            final(self).tree@ == heated_all(old(self).tree@, mode),
            final(self).tree.heat_scale == heat_scale_after(old(self).tree@, mode, old(self).tree.heat_scale),
            final(self).status == (if mode != ColorMode::FileType && old(self).history is None {
                MapStatus::ReadingHistory
            } else {
                old(self).status
            }),
            final(self).history == old(self).history,
            final(self).matches == old(self).matches,
            final(self).selected == old(self).selected,
            final(self).search == old(self).search,
    {
        self.color_mode = mode;
        self.tree.compute_heat(mode);
        proof {
            assert(self.tree@ =~= heated_all(old(self).tree@, mode));
        }
        if mode != ColorMode::FileType && self.history.is_none() {
            self.status = MapStatus::ReadingHistory;
        }
    }

    /// Searches for `query` (trimmed): marks the tree, collects the matches
    /// in tree order and starts the round of matches from the first.
    pub fn set_search(&mut self, query: &str)
        requires
            old(self).wf(),
        ensures
            final(self).wf(),
            final(self).search@ == trim_white(query@),
            final(self).tree@ == searched_all(old(self).tree@, query_words(trim_white(query@))),
            final(self).matches@ == matches_of(old(self).tree@, trim_white(query@)),
            final(self).match_cursor == 0,
            final(self).status == (if trim_white(query@).len() == 0 {
                MapStatus::Summary
            } else {
                MapStatus::Search
            }),
            final(self).history == old(self).history,
            final(self).selected == old(self).selected,
            final(self).color_mode == old(self).color_mode,
    {
        let ghost t = self.tree@;
        let count = self.tree.nodes.len();
        proof {
            self.tree.lemma_view();
        }
        self.search = trim_string(query);
        self.matches = self.tree.search(self.search.as_str());
        self.match_cursor = 0;
        proof {
            assert(self.tree@ =~= searched_all(t, query_words(self.search@)));
            assert(t.len() == count);
            lemma_match_list_in_order(t, query_words(self.search@), t.len() as int);
        }
        if self.search.unicode_len() == 0 {
            self.status = MapStatus::Summary;
        } else {
            self.status = MapStatus::Search;
        }
    }

    /// Starts reading the unread node `index`: gives the path to read, or
    /// `None` when it is not an unread node or is already being read.
    pub fn expand(&mut self, index: usize) -> (res: Option<String>)
        requires
            old(self).wf(),
            index < old(self).tree@.len(),
        ensures
            final(self).wf(),
            match old(self).tree@[index as int].kind {
                Kind::Unread { dir, loading: false } => {
                    &&& res matches Some(p) && p@ == old(self).tree@[index as int].path
                    &&& final(self).tree@ == old(self).tree@.update(
                        index as int,
                        NodeView { kind: Kind::Unread { dir, loading: true }, ..old(self).tree@[index as int] },
                    )
                    &&& final(self).pending == one_more(old(self).pending)
                },
                _ => res is None && final(self).tree@ == old(self).tree@ && final(self).pending == old(
                    self,
                ).pending,
            },
            final(self).status == old(self).status,
            final(self).matches == old(self).matches,
            final(self).selected == old(self).selected,
            final(self).history == old(self).history,
    {
        let res = self.tree.start_loading(index);
        if res.is_some() && self.pending < usize::MAX {
            self.pending = self.pending + 1;
        }
        res
    }

    /// After the tree changed shape: the layout is redone, the history
    /// applied again, the heat ranked again, and a search run again.
    fn refresh(&mut self)
        requires
            old(self).wf(),
        ensures
            final(self).wf(),
            final(self).needs_layout,
            final(self).tree@.len() == old(self).tree@.len(),
            history_fits(old(self).tree@, old(self).activity()) ==> final(self).tree@ == refreshed(
                old(self).tree@,
                old(self).activity(),
                old(self).color_mode,
                old(self).search@,
            ),
            history_fits(old(self).tree@, old(self).activity()) ==> final(self).tree.heat_scale == heat_scale_after(
                match old(self).activity() {
                    Some(h) => with_history_all(old(self).tree@, h),
                    None => old(self).tree@,
                },
                old(self).color_mode,
                old(self).tree.heat_scale,
            ),
            old(self).search@.len() == 0 ==> final(self).matches == old(self).matches,
            history_fits(old(self).tree@, old(self).activity()) && old(self).search@.len() > 0
                ==> final(self).matches@ == matches_of(
                heated_all(
                    match old(self).activity() {
                        Some(h) => with_history_all(old(self).tree@, h),
                        None => old(self).tree@,
                    },
                    old(self).color_mode,
                ),
                old(self).search@,
            ),
            final(self).status == old(self).status,
            final(self).selected == old(self).selected,
            final(self).history == old(self).history,
            final(self).search == old(self).search,
            final(self).color_mode == old(self).color_mode,
            final(self).language == old(self).language,
            final(self).pending == old(self).pending,
            final(self).match_cursor == old(self).match_cursor,
    {
        let ghost t0 = self.tree@;
        let ghost h = self.activity();
        self.needs_layout = true;
        let fits = match &self.history {
            Some(history) => self.tree.apply_history(history),
            None => true,
        };
        let ghost t1 = self.tree@;
        proof {
            if fits {
                match h {
                    Some(hm) => assert(t1 =~= with_history_all(t0, hm)),
                    None => assert(t1 =~= t0),
                }
            }
        }
        self.tree.compute_heat(self.color_mode);
        let ghost t2 = self.tree@;
        proof {
            assert(t2 =~= heated_all(t1, self.color_mode));
        }
        if self.search.unicode_len() > 0 {
            let count = self.tree.nodes.len();
            proof {
                self.tree.lemma_view();
            }
            self.matches = self.tree.search(self.search.as_str());
            proof {
                assert(t2.len() == count);
                assert(self.tree@ =~= searched_all(t2, query_words(self.search@)));
                lemma_match_list_in_order(t2, query_words(self.search@), t2.len() as int);
            }
        }
    }

    /// The scan of the opened folder finished, in `seconds` (as they are to
    /// be shown): its entries go into the tree, which gets its totals. True
    /// when the folder is in git, so that its history is to be read next.
    ///
    /// Entries that would take the tree past 2^32 - 1 nodes are not put in,
    /// and totals that do not fit 64 bits are left stale.
    pub fn project_scanned(&mut self, project: ProjectScan, seconds: &str) -> (res: bool)
        requires
            old(self).wf(),
        ensures
            final(self).wf(),
            res == project.used_git,
            old(self).tree@.len() + parts_total(project.entries@.map_values(|e: Entry| e@)) < u32::MAX
                && totals_fit(insert_all(old(self).tree@, project.entries@.map_values(|e: Entry| e@)))
                ==> final(self).tree@ == scanned_tree(
                old(self).tree@,
                project.entries@.map_values(|e: Entry| e@),
            ),
            old(self).tree@.len() + parts_total(project.entries@.map_values(|e: Entry| e@)) >= u32::MAX
                && totals_fit(old(self).tree@) ==> final(self).tree@ == totaled_all(old(self).tree@),
            final(self).status matches MapStatus::Scanned { seconds: s, used_git: g } && s@ == seconds@ && g
                == project.used_git,
            final(self).needs_layout,
            final(self).needs_fit,
            final(self).pending == (if project.used_git {
                one_more(one_less(old(self).pending))
            } else {
                one_less(old(self).pending)
            }),
            final(self).matches == old(self).matches,
            final(self).selected == old(self).selected,
            final(self).history == old(self).history,
            final(self).search == old(self).search,
    {
        let ghost es = project.entries@.map_values(|e: Entry| e@);
        let ghost t0 = self.tree@;
        if self.pending > 0 {
            self.pending = self.pending - 1;
        }
        let used_git = project.used_git;
        if self.tree.fits_entries(&project.entries) {
            self.tree.insert_entries(project.entries);
        }
        let ghost t1 = self.tree@;
        let totals = self.tree.update_totals();
        proof {
            if totals && t1 == insert_all(t0, es) {
                assert(self.tree@ =~= scanned_tree(t0, es));
            }
            if totals && t1 == t0 {
                assert(self.tree@ =~= totaled_all(t0));
            }
        }
        self.status = MapStatus::Scanned { seconds: String::from_str(seconds), used_git };
        self.needs_layout = true;
        self.needs_fit = true;
        if used_git && self.pending < usize::MAX {
            self.pending = self.pending + 1;
        }
        used_git
    }

    /// The scan of the opened folder failed.
    pub fn scan_failed(&mut self, error: String)
        ensures
            final(self).status == MapStatus::ScanFailed(error),
            final(self).pending == one_less(old(self).pending),
            final(self).tree == old(self).tree,
            final(self).matches == old(self).matches,
            final(self).selected == old(self).selected,
            final(self).history == old(self).history,
    {
        if self.pending > 0 {
            self.pending = self.pending - 1;
        }
        self.status = MapStatus::ScanFailed(error);
    }

    /// An ignored folder or file at `path` was read: its entries go into the
    /// tree in place of the unread node, which gets selected, and the totals
    /// are counted again. Nothing
    /// changes when `path` is not in the tree (another folder was opened
    /// meanwhile), nor when the entries would take the tree past 2^32 - 1
    /// nodes.
    pub fn ignored_read(&mut self, path: &str, entries: Vec<Entry>)
        requires
            old(self).wf(),
        ensures
            final(self).wf(),
            final(self).pending == one_less(old(self).pending),
            match path_index(old(self).tree@, path@) {
                Some(i) => old(self).tree@.len() + parts_total(entries@.map_values(|e: Entry| e@)) < u32::MAX
                    ==> {
                    let g = graft_spec(old(self).tree@, i, entries@.map_values(|e: Entry| e@));
                    &&& final(self).selected == Some(i as usize)
                    &&& final(self).status matches MapStatus::ExpandedIgnored { path: p, count: c } && p@
                        == path@ && c == entries@.len()
                    &&& final(self).needs_layout
                    &&& totals_fit(g) && history_fits(totaled_all(g), old(self).activity()) ==> final(self).tree@
                        == refreshed(totaled_all(g), old(self).activity(), old(self).color_mode, old(self).search@)
                    &&& totals_fit(g) && history_fits(totaled_all(g), old(self).activity()) ==> final(self).tree.heat_scale
                        == heat_scale_after(
                        with_history_opt(totaled_all(g), old(self).activity()),
                        old(self).color_mode,
                        old(self).tree.heat_scale,
                    )
                    &&& old(self).search@.len() == 0 ==> final(self).matches == old(self).matches
                    &&& totals_fit(g) && history_fits(totaled_all(g), old(self).activity()) && old(self).search@.len()
                        > 0 ==> final(self).matches@ == matches_of(
                        heated_all(with_history_opt(totaled_all(g), old(self).activity()), old(self).color_mode),
                        old(self).search@,
                    )
                } && (old(self).tree@.len() + parts_total(entries@.map_values(|e: Entry| e@)) >= u32::MAX ==> {
                    &&& final(self).tree == old(self).tree
                    &&& final(self).status == old(self).status
                    &&& final(self).selected == old(self).selected
                    &&& final(self).matches == old(self).matches
                }),
                None => final(self).tree == old(self).tree && final(self).status == old(self).status
                    && final(self).selected == old(self).selected && final(self).matches == old(self).matches,
            },
            final(self).history == old(self).history,
            final(self).search == old(self).search,
    {
        if self.pending > 0 {
            self.pending = self.pending - 1;
        }
        match self.tree.find(path) {
            Some(index) => {
                if !self.tree.fits_entries(&entries) {
                    return;
                }
                let count = entries.len();
                proof {
                    self.tree.lemma_view();
                }
                self.tree.graft(index, entries);
                let ghost g = self.tree@;
                let totals = self.tree.update_totals();
                proof {
                    if totals {
                        assert(self.tree@ =~= totaled_all(g));
                    }
                }
                assert(self.wf());
                self.refresh();
                self.selected = Some(index);
                self.status = MapStatus::ExpandedIgnored { path: String::from_str(path), count };
            },
            None => {},
        }
    }

    /// The git history was read: it is applied to the tree and the heat
    /// ranked for the current color mode.
    pub fn history_read(&mut self, history: History)
        requires
            old(self).wf(),
            history.wf(),
        ensures
            final(self).wf(),
            final(self).history == Some(history),
            final(self).pending == one_less(old(self).pending),
            commits_fit(old(self).tree@, history.files()) ==> final(self).tree@ == heated_all(
                with_history_all(old(self).tree@, history.files()),
                old(self).color_mode,
            ),
            commits_fit(old(self).tree@, history.files()) ==> final(self).tree.heat_scale == heat_scale_after(
                with_history_all(old(self).tree@, history.files()),
                old(self).color_mode,
                old(self).tree.heat_scale,
            ),
            final(self).status is Summary,
            final(self).matches == old(self).matches,
            final(self).selected == old(self).selected,
            final(self).search == old(self).search,
    {
        if self.pending > 0 {
            self.pending = self.pending - 1;
        }
        let ghost t0 = self.tree@;
        let fits = self.tree.apply_history(&history);
        let ghost t1 = self.tree@;
        proof {
            if fits {
                assert(t1 =~= with_history_all(t0, history.files()));
            }
        }
        self.history = Some(history);
        self.tree.compute_heat(self.color_mode);
        proof {
            assert(self.tree@ =~= heated_all(t1, self.color_mode));
        }
        self.status = MapStatus::Summary;
    }

    /// The git history could not be read.
    pub fn history_failed(&mut self, error: String)
        ensures
            final(self).status == MapStatus::HistoryFailed(error),
            final(self).pending == one_less(old(self).pending),
            final(self).tree == old(self).tree,
            final(self).matches == old(self).matches,
            final(self).selected == old(self).selected,
            final(self).history == old(self).history,
    {
        if self.pending > 0 {
            self.pending = self.pending - 1;
        }
        self.status = MapStatus::HistoryFailed(error);
    }

    /// What the inspector shows about node `index`; `now` is the current
    /// unix time, for the age of the last change.
    pub fn info(&self, index: usize, now: i64) -> (res: NodeInfo)
        requires
            self.wf(),
            index < self.tree@.len(),
        ensures
            res.title@ == self.tree@[index as int].name,
            res.path@ == (if self.tree@[index as int].path.len() == 0 {
                self.root_label@
            } else {
                self.tree@[index as int].path
            }),
            res.details@ == details_text(self.language, self.tree@[index as int], self.history is Some, now),
    {
        proof {
            self.tree.lemma_view();
        }
        let n = &self.tree.nodes[index];
        let lang = self.language;
        let mut details = match n.kind {
            Kind::Dir => {
                let files = fmt_num(n.total_files);
                let lines = fmt_num(n.total_lines);
                let size = lang.bytes(n.bytes);
                lang.folder_details(files.as_str(), lines.as_str(), size.as_str(), n.children.len())
            },
            Kind::Text => {
                let comments = count_comments(&n.lines);
                let lines = fmt_num(n.lines.len() as u64);
                let notes = fmt_num(comments as u64);
                let size = lang.bytes(n.bytes);
                lang.text_file_details(lines.as_str(), notes.as_str(), size.as_str())
            },
            Kind::Binary => {
                let size = lang.bytes(n.bytes);
                lang.binary_details(size.as_str())
            },
            Kind::Unread { dir, loading } => lang.ignored_details(dir, loading),
        };
        let unread = match n.kind {
            Kind::Unread { .. } => true,
            _ => false,
        };
        if self.history.is_some() && !unread {
            if n.commits > 0 {
                let age = lang.age(seconds_between(n.last_change, now));
                let commits = fmt_num(n.commits as u64);
                let git = lang.git_details(commits.as_str(), age.as_str());
                details.append(git.as_str());
            } else {
                details.append(lang.no_commits());
            }
        }
        if n.ignored && !unread {
            details.append(lang.matched_gitignore());
        }
        let path = if n.path.unicode_len() == 0 {
            self.root_label.clone()
        } else {
            n.path.clone()
        };
        NodeInfo { title: n.name.clone(), path, details }
    }

    /// A click (or a double click, `taps` >= 2) on node `index`: it gets
    /// selected; an unread node starts being read, another node is flown to
    /// on a double click.
    pub fn click(&mut self, index: usize, taps: u32) -> (res: Click)
        requires
            old(self).wf(),
            index < old(self).tree@.len(),
        ensures
            final(self).wf(),
            final(self).selected == Some(index),
            match old(self).tree@[index as int].kind {
                Kind::Unread { dir, loading: false } => {
                    &&& res matches Click::Read(p) && p@ == old(self).tree@[index as int].path
                    &&& final(self).tree@ == old(self).tree@.update(
                        index as int,
                        NodeView { kind: Kind::Unread { dir, loading: true }, ..old(self).tree@[index as int] },
                    )
                    &&& final(self).pending == one_more(old(self).pending)
                },
                Kind::Unread { loading: true, .. } => res is Stay && final(self).tree@ == old(self).tree@
                    && final(self).pending == old(self).pending,
                _ => (if taps >= 2 {
                    res is Fly
                } else {
                    res is Stay
                }) && final(self).tree@ == old(self).tree@ && final(self).pending == old(self).pending,
            },
            final(self).status == old(self).status,
            final(self).matches == old(self).matches,
            final(self).history == old(self).history,
    {
        self.selected = Some(index);
        proof {
            self.tree.lemma_view();
        }
        let unread = match self.tree.nodes[index].kind {
            Kind::Unread { .. } => true,
            _ => false,
        };
        if unread {
            match self.expand(index) {
                Some(path) => Click::Read(path),
                None => Click::Stay,
            }
        } else if taps >= 2 {
            Click::Fly
        } else {
            Click::Stay
        }
    }

    /// Switches the rendering detail; true when it changed, so that the map
    /// is to be drawn again.
    pub fn set_detail_level(&mut self, level: DetailLevel) -> (res: bool)
        ensures
            res == (old(self).detail_level != level),
            final(self).detail_level == level,
            final(self).tree == old(self).tree,
            final(self).status == old(self).status,
            final(self).selected == old(self).selected,
            final(self).matches == old(self).matches,
    {
        if self.detail_level == level {
            return false;
        }
        self.detail_level = level;
        true
    }

    /// Selects the next match, going round; `None` when nothing matches.
    pub fn next_match(&mut self) -> (res: Option<usize>)
        requires
            old(self).wf(),
        ensures
            final(self).wf(),
            old(self).matches@.len() == 0 ==> res is None && final(self).selected == old(self).selected
                && final(self).match_cursor == old(self).match_cursor,
            old(self).matches@.len() > 0 ==> {
                let n = old(self).matches@.len() as int;
                &&& res == Some(old(self).matches@[old(self).match_cursor as int % n])
                &&& final(self).selected == res
                &&& final(self).match_cursor == (if old(self).match_cursor < usize::MAX {
                    old(self).match_cursor + 1
                } else {
                    0
                })
            },
            final(self).matches == old(self).matches,
            final(self).tree == old(self).tree,
            final(self).status == old(self).status,
    {
        let n = self.matches.len();
        if n == 0 {
            return None;
        }
        let at = self.match_cursor % n;
        let index = self.matches[at];
        self.match_cursor = self.match_cursor.wrapping_add(1);
        self.selected = Some(index);
        Some(index)
    }
}

} // verus!
