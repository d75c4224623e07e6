//! The project as a tree.
//!
//! Nodes live in one flat `Vec` and point at each other by index. A child
//! always has a bigger index than its parent, so walking the `Vec` backwards
//! visits children before parents. The treemap geometry (weights and
//! rectangles, which are floating point) is kept beside the tree by the
//! application, indexed the same way.

use vstd::prelude::*;
use crate::history::History;
use crate::index::PathIndex;
use crate::sort::{count_below, rank_in, sort_values};
use crate::scan::{join_path, Entry, EntryKind, Line};
use crate::text::{chars_of, contains_chars, contains_seq, lowercase, lowercase_words, split_chars, split_string, to_lowercase, words};

verus! {

#[derive(Clone, Copy, Debug, PartialEq, Eq, Structural)]
pub enum Kind {
    Dir,
    Text,
    Binary,
    /// Ignored and not read yet. `loading` while a click is scanning it.
    Unread { dir: bool, loading: bool },
}

#[derive(Clone, Copy, Debug, PartialEq, Eq, Structural)]
pub enum ColorMode {
    FileType,
    Recent,
    Churn,
}

#[derive(Debug)]
pub struct Node {
    pub name: String,
    pub path: String,
    pub parent: Option<usize>,
    pub children: Vec<usize>,
    pub kind: Kind,
    pub ignored: bool,
    pub depth: u32,
    pub lines: Vec<Line>,
    pub bytes: u64,
    /// Totals for this node and everything below it.
    pub total_lines: u64,
    pub total_files: u64,
    /// Git activity: commits touching this file (or folder) and last change time.
    pub commits: u32,
    pub last_change: i64,
    /// Rank of the file among the files with git history under the current
    /// color mode (equal values share a rank); `None` when it has no rank.
    pub heat_rank: Option<usize>,
    /// Search: `lit` if this node or a folder above it matches,
    /// `on_path` if it is lit or has a match somewhere below it.
    pub lit: bool,
    pub on_path: bool,
}

/// The mathematical value of a node.
pub struct NodeView {
    pub name: Seq<char>,
    pub path: Seq<char>,
    pub parent: Option<usize>,
    pub children: Seq<usize>,
    pub kind: Kind,
    pub ignored: bool,
    pub depth: u32,
    pub lines: Seq<Line>,
    pub bytes: u64,
    pub total_lines: u64,
    pub total_files: u64,
    pub commits: u32,
    pub last_change: i64,
    pub heat_rank: Option<usize>,
    pub lit: bool,
    pub on_path: bool,
}

impl View for Node {
    type V = NodeView;

    open spec fn view(&self) -> NodeView {
        NodeView {
            name: self.name@,
            path: self.path@,
            parent: self.parent,
            children: self.children@,
            kind: self.kind,
            ignored: self.ignored,
            depth: self.depth,
            lines: self.lines@,
            bytes: self.bytes,
            total_lines: self.total_lines,
            total_files: self.total_files,
            commits: self.commits,
            last_change: self.last_change,
            heat_rank: self.heat_rank,
            lit: self.lit,
            on_path: self.on_path,
        }
    }
}

/// The mathematical value of a scanned entry.
pub enum EntryKindView {
    Text { bytes: u64, lines: Seq<Line> },
    Binary { bytes: u64 },
    Unread { dir: bool },
}

pub struct EntryView {
    pub path: Seq<char>,
    pub kind: EntryKindView,
    pub ignored: bool,
}

impl View for EntryKind {
    type V = EntryKindView;

    open spec fn view(&self) -> EntryKindView {
        match self {
            EntryKind::Text { bytes, lines } => EntryKindView::Text { bytes: *bytes, lines: lines@ },
            EntryKind::Binary { bytes } => EntryKindView::Binary { bytes: *bytes },
            EntryKind::Unread { dir } => EntryKindView::Unread { dir: *dir },
        }
    }
}

impl View for Entry {
    type V = EntryView;

    open spec fn view(&self) -> EntryView {
        EntryView { path: self.path@, kind: self.kind@, ignored: self.ignored }
    }
}

/// A fresh folder node.
pub open spec fn fresh_node(
    name: Seq<char>,
    path: Seq<char>,
    parent: Option<usize>,
    depth: u32,
    ignored: bool,
) -> NodeView {
    NodeView {
        name,
        path,
        parent,
        children: seq![],
        kind: Kind::Dir,
        ignored,
        depth,
        lines: seq![],
        bytes: 0,
        total_lines: 0,
        total_files: 0,
        commits: 0,
        last_change: 0,
        heat_rank: None,
        lit: true,
        on_path: true,
    }
}

/// A node after a scanned entry was written into it.
pub open spec fn filled(n: NodeView, e: EntryView) -> NodeView {
    match e.kind {
        EntryKindView::Text { bytes, lines } => NodeView {
            ignored: e.ignored,
            kind: Kind::Text,
            bytes,
            lines,
            ..n
        },
        EntryKindView::Binary { bytes } => NodeView { ignored: e.ignored, kind: Kind::Binary, bytes, ..n },
        EntryKindView::Unread { dir } => NodeView {
            ignored: e.ignored,
            kind: Kind::Unread { dir, loading: false },
            ..n
        },
    }
}

/// The node holds what the entry says: writing the entry into it again
/// changes nothing.
pub open spec fn carries(n: NodeView, e: EntryView) -> bool {
    filled(n, e) == n
}

/// The path made of the first `k` components, joined as folders are.
pub open spec fn joined(parts: Seq<Seq<char>>, k: nat) -> Seq<char>
    decreases k,
{
    if k == 0 || k > parts.len() {
        Seq::<char>::empty()
    } else {
        join_path(joined(parts, (k - 1) as nat), parts[k - 1])
    }
}

proof fn lemma_joined_prefix(a: Seq<Seq<char>>, b: Seq<Seq<char>>, k: nat)
    requires
        k <= a.len(),
        k <= b.len(),
        forall|j: int| 0 <= j < k ==> a[j] == b[j],
    ensures
        joined(a, k) == joined(b, k),
    decreases k,
{
    if k > 0 {
        lemma_joined_prefix(a, b, (k - 1) as nat);
    }
}

/// Joining the components of a path gives the path back, unless it starts
/// with `/` (an empty first component adds no separator).
pub proof fn lemma_joined_split(s: Seq<char>)
    requires
        !(s.len() > 0 && s[0] == '/'),
    ensures
        joined(split_chars(s, '/'), split_chars(s, '/').len()) == s,
    decreases s.len(),
{
    crate::text::lemma_split_chars_nonempty(s, '/');
    if s.len() == 0 {
        assert(split_chars(s, '/') == seq![Seq::<char>::empty()]);
        reveal_with_fuel(joined, 2);
        assert(joined(seq![Seq::<char>::empty()], 1) =~= Seq::<char>::empty());
    } else {
        let d = s.drop_last();
        let p = split_chars(d, '/');
        let q = split_chars(s, '/');
        crate::text::lemma_split_chars_nonempty(d, '/');
        if d.len() > 0 {
            assert(d[0] == s[0]);
        }
        lemma_joined_split(d);
        let n = p.len();
        if s.last() == '/' {
            assert(q == p.push(Seq::<char>::empty()));
            lemma_joined_prefix(q, p, n);
            assert(d.len() > 0);
            assert(joined(q, n + 1) == join_path(joined(q, n), q[n as int]));
            assert(joined(q, n + 1) =~= s);
        } else {
            assert(q == p.update(n - 1, p.last().push(s.last())));
            lemma_joined_prefix(q, p, (n - 1) as nat);
            let a = joined(p, (n - 1) as nat);
            assert(joined(p, n) == join_path(a, p[n - 1]));
            assert(joined(q, n) == join_path(a, q[n - 1]));
            assert(q[n - 1] == p[n - 1].push(s.last()));
            assert(join_path(a, p[n - 1].push(s.last())) =~= join_path(a, p[n - 1]).push(s.last()));
            assert(d.push(s.last()) =~= s);
        }
    }
}

/// In a tree the node at `i` is the one found by its path.
pub proof fn lemma_found_at(t: Seq<NodeView>, i: int)
    requires
        tree_wf(t),
        0 <= i < t.len(),
    ensures
        path_index(t, t[i].path) == Some(i),
{
    reveal(paths_unique);
    let c = choose|c: int| 0 <= c < t.len() && (#[trigger] t[c]).path == t[i].path;
    if c != i {
        if c < i {
            assert(t[c].path != t[i].path);
        } else {
            assert(t[i].path != t[c].path);
        }
    }
}

/// The position of the node with path `p`, if there is one.
pub open spec fn path_index(t: Seq<NodeView>, p: Seq<char>) -> Option<int> {
    if exists|i: int| 0 <= i < t.len() && (#[trigger] t[i]).path == p {
        Some(choose|i: int| 0 <= i < t.len() && (#[trigger] t[i]).path == p)
    } else {
        None
    }
}

/// The tree with a new folder `name` at `path` appended under `parent`.
pub open spec fn add_child(t: Seq<NodeView>, parent: int, name: Seq<char>, path: Seq<char>) -> Seq<
    NodeView,
> {
    let idx = t.len() as usize;
    t.update(parent, NodeView { children: t[parent].children.push(idx), ..t[parent] }).push(
        fresh_node(name, path, Some(parent as usize), (t[parent].depth + 1) as u32, t[parent].ignored),
    )
}

/// Inserting the entry `e` whose path has the components `parts`, having
/// reached component `k` at the node `cur` whose path is `prefix`: every
/// missing folder on the way is created, then the entry is written into
/// its node.
pub open spec fn insert_from(
    t: Seq<NodeView>,
    parts: Seq<Seq<char>>,
    k: nat,
    cur: int,
    prefix: Seq<char>,
    e: EntryView,
) -> Seq<NodeView>
    decreases parts.len() - k,
{
    if k >= parts.len() {
        t
    } else {
        let p = join_path(prefix, parts[k as int]);
        let last = k + 1 == parts.len();
        match path_index(t, p) {
            Some(ex) => if last {
                t.update(ex, filled(t[ex], e))
            } else {
                insert_from(t, parts, k + 1, ex, p, e)
            },
            None => {
                let t2 = add_child(t, cur, parts[k as int], p);
                let idx = t.len() as int;
                if last {
                    t2.update(idx, filled(t2[idx], e))
                } else {
                    insert_from(t2, parts, k + 1, idx, p, e)
                }
            },
        }
    }
}

/// The tree after inserting an entry.
pub open spec fn insert_spec(t: Seq<NodeView>, e: EntryView) -> Seq<NodeView> {
    insert_from(t, split_chars(e.path, '/'), 0, 0, seq![], e)
}

/// The nodes present before a step of an insertion keep their place, path,
/// name and parent.
proof fn lemma_insert_from_keeps(
    t: Seq<NodeView>,
    parts: Seq<Seq<char>>,
    k: nat,
    cur: int,
    prefix: Seq<char>,
    e: EntryView,
)
    requires
        0 <= cur < t.len(),
    ensures
        insert_from(t, parts, k, cur, prefix, e).len() >= t.len(),
        forall|i: int|
            0 <= i < t.len() ==> {
                &&& (#[trigger] insert_from(t, parts, k, cur, prefix, e)[i]).path == t[i].path
                &&& insert_from(t, parts, k, cur, prefix, e)[i].name == t[i].name
                &&& insert_from(t, parts, k, cur, prefix, e)[i].parent == t[i].parent
            },
    decreases parts.len() - k,
{
    if k < parts.len() {
        let p = join_path(prefix, parts[k as int]);
        let last = k + 1 == parts.len();
        match path_index(t, p) {
            Some(ex) => {
                if !last {
                    lemma_insert_from_keeps(t, parts, k + 1, ex, p, e);
                }
            },
            None => {
                let t2 = add_child(t, cur, parts[k as int], p);
                let idx = t.len() as int;
                assert forall|i: int| 0 <= i < t.len() implies (#[trigger] t2[i]).path == t[i].path && t2[i].name
                    == t[i].name && t2[i].parent == t[i].parent by {}
                if !last {
                    lemma_insert_from_keeps(t2, parts, k + 1, idx, p, e);
                }
            },
        }
    }
}

/// Some node has the path `p`.
pub open spec fn has_path(t: Seq<NodeView>, p: Seq<char>) -> bool {
    exists|i: int| 0 <= i < t.len() && (#[trigger] t[i]).path == p
}

/// How many of the first `k` prefixes `joined(pv, 1)` .. `joined(pv, k)` no
/// node of `t` has as its path.
pub open spec fn absent_prefixes(t: Seq<NodeView>, pv: Seq<Seq<char>>, k: nat) -> nat
    decreases k,
{
    if k == 0 {
        0
    } else {
        absent_prefixes(t, pv, (k - 1) as nat) + if has_path(t, joined(pv, k)) {
            0nat
        } else {
            1nat
        }
    }
}

/// Two prefixes of one path are the same only when both are empty.
proof fn lemma_joined_distinct(pv: Seq<Seq<char>>, j: nat, k: nat)
    requires
        j < k <= pv.len(),
        joined(pv, j) == joined(pv, k),
    ensures
        joined(pv, k).len() == 0,
    decreases k,
{
    lemma_joined_grows(pv, j, (k - 1) as nat);
    if joined(pv, (k - 1) as nat).len() > 0 {
        assert(joined(pv, k).len() > joined(pv, (k - 1) as nat).len());
    }
}

/// Prefixes never get shorter, and once one is not empty they are.
proof fn lemma_joined_grows(pv: Seq<Seq<char>>, j: nat, k: nat)
    requires
        j <= k <= pv.len(),
    ensures
        joined(pv, j).len() <= joined(pv, k).len(),
    decreases k,
{
    if j < k {
        lemma_joined_grows(pv, j, (k - 1) as nat);
    }
}

/// While an entry is inserted, the next prefix is in the tree exactly when
/// it was there before: the nodes added so far hold earlier prefixes only,
/// and an earlier prefix equal to it is the root's empty path.
proof fn lemma_prefix_present(t0: Seq<NodeView>, tk: Seq<NodeView>, pv: Seq<Seq<char>>, k: nat)
    requires
        k + 1 <= pv.len(),
        tk.len() >= t0.len() >= 1,
        t0[0].path == Seq::<char>::empty(),
        forall|i: int| 0 <= i < t0.len() ==> (#[trigger] tk[i]).path == t0[i].path,
        forall|i: int|
            t0.len() <= i < tk.len() ==> exists|j: nat| 1 <= j <= k && (#[trigger] tk[i]).path == joined(pv, j),
    ensures
        has_path(tk, joined(pv, k + 1)) == has_path(t0, joined(pv, k + 1)),
{
    let p = joined(pv, k + 1);
    if has_path(t0, p) {
        let i = choose|i: int| 0 <= i < t0.len() && (#[trigger] t0[i]).path == p;
        assert(tk[i].path == p);
    }
    if has_path(tk, p) {
        let i = choose|i: int| 0 <= i < tk.len() && (#[trigger] tk[i]).path == p;
        if i >= t0.len() {
            let j = choose|j: nat| 1 <= j <= k && (#[trigger] tk[i]).path == joined(pv, j);
            lemma_joined_distinct(pv, j, k + 1);
            assert(p =~= t0[0].path);
            assert(t0[0].path == p);
        } else {
            assert(t0[i].path == p);
        }
    }
}

/// Paths present in `t` stay present in `u` when `u` keeps the paths of
/// `t`'s nodes at their indices.
proof fn lemma_prefixes_kept(t: Seq<NodeView>, u: Seq<NodeView>, pv: Seq<Seq<char>>, k: nat)
    requires
        u.len() >= t.len(),
        forall|i: int| 0 <= i < t.len() ==> (#[trigger] u[i]).path == t[i].path,
        forall|j: nat| 1 <= j <= k ==> #[trigger] has_path(t, joined(pv, j)),
    ensures
        forall|j: nat| 1 <= j <= k ==> #[trigger] has_path(u, joined(pv, j)),
{
    assert forall|j: nat| 1 <= j <= k implies #[trigger] has_path(u, joined(pv, j)) by {
        assert(has_path(t, joined(pv, j)));
        let i = choose|i: int| 0 <= i < t.len() && (#[trigger] t[i]).path == joined(pv, j);
        assert(u[i].path == joined(pv, j));
    }
}

/// Inserting an entry keeps every node already in the tree at its index,
/// with its path, name and parent; what it adds comes after them.
pub proof fn lemma_insert_keeps_nodes(t: Seq<NodeView>, e: EntryView)
    requires
        t.len() >= 1,
    ensures
        insert_spec(t, e).len() >= t.len(),
        forall|i: int|
            0 <= i < t.len() ==> {
                &&& (#[trigger] insert_spec(t, e)[i]).path == t[i].path
                &&& insert_spec(t, e)[i].name == t[i].name
                &&& insert_spec(t, e)[i].parent == t[i].parent
            },
{
    lemma_insert_from_keeps(t, split_chars(e.path, '/'), 0, 0, seq![], e);
}

/// Every node but the root has an earlier parent that lists it, one level
/// less deep, and its path is the parent's path joined with its name.
#[verifier::opaque]
pub open spec fn parents_ok(t: Seq<NodeView>) -> bool {
    forall|i: int|
        1 <= i < t.len() ==> {
            &&& (#[trigger] t[i]).parent is Some
            &&& t[i].parent->0 < i
            &&& t[i].depth == t[t[i].parent->0 as int].depth + 1
            &&& t[i].path == join_path(t[t[i].parent->0 as int].path, t[i].name)
            &&& t[t[i].parent->0 as int].children.contains(i as usize)
        }
}

/// Children come after their parent, point back at it, and are listed once.
#[verifier::opaque]
pub open spec fn children_ok(t: Seq<NodeView>) -> bool {
    &&& forall|i: int, k: int|
        0 <= i < t.len() && 0 <= k < t[i].children.len() ==> {
            &&& i < #[trigger] t[i].children[k] < t.len()
            &&& t[t[i].children[k] as int].parent == Some(i as usize)
        }
    &&& forall|i: int, k1: int, k2: int|
        0 <= i < t.len() && 0 <= k1 < k2 < t[i].children.len() ==> #[trigger] t[i].children[k1]
            != #[trigger] t[i].children[k2]
}

/// A node is never deeper than its position.
#[verifier::opaque]
pub open spec fn depth_ok(t: Seq<NodeView>) -> bool {
    forall|i: int| 0 <= i < t.len() ==> (#[trigger] t[i]).depth <= i
}

/// No two nodes share a path.
#[verifier::opaque]
pub open spec fn paths_unique(t: Seq<NodeView>) -> bool {
    forall|i: int, j: int| 0 <= i < j < t.len() ==> (#[trigger] t[i]).path != (#[trigger] t[j]).path
}

/// Structure every tree keeps.
pub open spec fn tree_wf(t: Seq<NodeView>) -> bool {
    &&& t.len() >= 1
    &&& t[0].parent is None
    &&& t[0].path == Seq::<char>::empty()
    &&& t[0].depth == 0
    &&& parents_ok(t)
    &&& children_ok(t)
    &&& depth_ok(t)
    &&& paths_unique(t)
}

/// Two nodes with the same place in the tree.
pub open spec fn same_shape(a: NodeView, b: NodeView) -> bool {
    &&& a.name == b.name
    &&& a.path == b.path
    &&& a.parent == b.parent
    &&& a.children == b.children
    &&& a.depth == b.depth
}

proof fn lemma_same_shape_parents(t: Seq<NodeView>, u: Seq<NodeView>)
    requires
        parents_ok(t),
        u.len() == t.len(),
        forall|i: int| 0 <= i < t.len() ==> same_shape(#[trigger] t[i], u[i]),
    ensures
        parents_ok(u),
{
    reveal(parents_ok);
    assert forall|i: int| 1 <= i < u.len() implies {
        &&& (#[trigger] u[i]).parent is Some
        &&& u[i].parent->0 < i
        &&& u[i].depth == u[u[i].parent->0 as int].depth + 1
        &&& u[i].path == join_path(u[u[i].parent->0 as int].path, u[i].name)
        &&& u[u[i].parent->0 as int].children.contains(i as usize)
    } by {
        assert(same_shape(t[i], u[i]));
        assert(same_shape(t[t[i].parent->0 as int], u[t[i].parent->0 as int]));
    }
}

proof fn lemma_same_shape_children(t: Seq<NodeView>, u: Seq<NodeView>)
    requires
        children_ok(t),
        u.len() == t.len(),
        forall|i: int| 0 <= i < t.len() ==> same_shape(#[trigger] t[i], u[i]),
    ensures
        children_ok(u),
{
    reveal(children_ok);
    assert forall|i: int, k: int| 0 <= i < u.len() && 0 <= k < u[i].children.len() implies {
        &&& i < #[trigger] u[i].children[k] < u.len()
        &&& u[u[i].children[k] as int].parent == Some(i as usize)
    } by {
        assert(same_shape(t[i], u[i]));
        assert(same_shape(t[t[i].children[k] as int], u[t[i].children[k] as int]));
    }
    assert forall|i: int, k1: int, k2: int|
        0 <= i < u.len() && 0 <= k1 < k2 < u[i].children.len() implies #[trigger] u[i].children[k1]
        != #[trigger] u[i].children[k2] by {
        assert(same_shape(t[i], u[i]));
    }
}

proof fn lemma_same_shape_depth(t: Seq<NodeView>, u: Seq<NodeView>)
    requires
        depth_ok(t),
        u.len() == t.len(),
        forall|i: int| 0 <= i < t.len() ==> same_shape(#[trigger] t[i], u[i]),
    ensures
        depth_ok(u),
{
    reveal(depth_ok);
    assert forall|i: int| 0 <= i < u.len() implies (#[trigger] u[i]).depth <= i by {
        assert(same_shape(t[i], u[i]));
    }
}

proof fn lemma_same_shape_paths(t: Seq<NodeView>, u: Seq<NodeView>)
    requires
        paths_unique(t),
        u.len() == t.len(),
        forall|i: int| 0 <= i < t.len() ==> same_shape(#[trigger] t[i], u[i]),
    ensures
        paths_unique(u),
{
    reveal(paths_unique);
    assert forall|i: int, j: int| 0 <= i < j < u.len() implies (#[trigger] u[i]).path != (#[trigger] u[j]).path by {
        assert(same_shape(t[i], u[i]));
        assert(same_shape(t[j], u[j]));
    }
}

/// Changing what nodes hold, but not where they are, keeps the structure.
pub proof fn lemma_same_shape_wf(t: Seq<NodeView>, u: Seq<NodeView>)
    requires
        tree_wf(t),
        u.len() == t.len(),
        forall|i: int| 0 <= i < t.len() ==> same_shape(#[trigger] t[i], u[i]),
    ensures
        tree_wf(u),
{
    assert(same_shape(t[0], u[0]));
    lemma_same_shape_parents(t, u);
    lemma_same_shape_children(t, u);
    lemma_same_shape_depth(t, u);
    lemma_same_shape_paths(t, u);
}

#[verifier::rlimit(100)]
proof fn lemma_add_child_parents(t: Seq<NodeView>, parent: int, name: Seq<char>, path: Seq<char>)
    requires
        parents_ok(t),
        t.len() >= 1,
        0 <= parent < t.len(),
        path == join_path(t[parent].path, name),
        t[parent].depth < u32::MAX,
        t.len() < usize::MAX,
    ensures
        parents_ok(add_child(t, parent, name, path)),
{
    reveal(parents_ok);
    let u = add_child(t, parent, name, path);
    let idx = t.len() as int;
    assert forall|i: int| 1 <= i < u.len() implies {
        &&& (#[trigger] u[i]).parent is Some
        &&& u[i].parent->0 < i
        &&& u[i].depth == u[u[i].parent->0 as int].depth + 1
        &&& u[i].path == join_path(u[u[i].parent->0 as int].path, u[i].name)
        &&& u[u[i].parent->0 as int].children.contains(i as usize)
    } by {
        if i == idx {
            assert(u[parent].children[t[parent].children.len() as int] == idx as usize);
        } else {
            let p = t[i].parent->0 as int;
            assert(t[p].children.contains(i as usize));
            if p == parent {
                let k = choose|k: int| 0 <= k < t[p].children.len() && t[p].children[k] == i as usize;
                assert(u[p].children[k] == i as usize);
            }
        }
    }
}

proof fn lemma_add_child_children(t: Seq<NodeView>, parent: int, name: Seq<char>, path: Seq<char>)
    requires
        children_ok(t),
        0 <= parent < t.len(),
        t.len() < usize::MAX,
    ensures
        children_ok(add_child(t, parent, name, path)),
{
    reveal(children_ok);
    let u = add_child(t, parent, name, path);
    let idx = t.len() as int;
    assert forall|i: int, k: int| 0 <= i < u.len() && 0 <= k < u[i].children.len() implies {
        &&& i < #[trigger] u[i].children[k] < u.len()
        &&& u[u[i].children[k] as int].parent == Some(i as usize)
    } by {
        if i == parent && k == t[parent].children.len() {
        } else if i < idx {
            assert(u[i].children[k] == t[i].children[k]);
        }
    }
    assert forall|i: int, k1: int, k2: int|
        0 <= i < u.len() && 0 <= k1 < k2 < u[i].children.len() implies #[trigger] u[i].children[k1]
        != #[trigger] u[i].children[k2] by {
        if i == parent && k2 == t[parent].children.len() {
            assert(u[i].children[k1] == t[i].children[k1]);
        } else if i < idx {
            assert(u[i].children[k1] == t[i].children[k1]);
            assert(u[i].children[k2] == t[i].children[k2]);
        }
    }
}

proof fn lemma_add_child_depth(t: Seq<NodeView>, parent: int, name: Seq<char>, path: Seq<char>)
    requires
        depth_ok(t),
        0 <= parent < t.len(),
        t[parent].depth < u32::MAX,
    ensures
        depth_ok(add_child(t, parent, name, path)),
{
    reveal(depth_ok);
    let u = add_child(t, parent, name, path);
    let idx = t.len() as int;
    assert forall|i: int| 0 <= i < u.len() implies (#[trigger] u[i]).depth <= i by {
        if i < idx {
            assert(u[i].depth == t[i].depth);
        } else {
            assert(t[parent].depth <= parent);
        }
    }
}

proof fn lemma_add_child_paths(t: Seq<NodeView>, parent: int, name: Seq<char>, path: Seq<char>)
    requires
        paths_unique(t),
        0 <= parent < t.len(),
        forall|i: int| 0 <= i < t.len() ==> (#[trigger] t[i]).path != path,
    ensures
        paths_unique(add_child(t, parent, name, path)),
{
    reveal(paths_unique);
    let u = add_child(t, parent, name, path);
    let idx = t.len() as int;
    assert forall|i: int, j: int| 0 <= i < j < u.len() implies (#[trigger] u[i]).path != (#[trigger] u[j]).path by {
        assert(u[i].path == t[i].path);
        if j < idx {
            assert(u[j].path == t[j].path);
        }
    }
}

/// Appending a folder at a new path under an existing node keeps the structure.
pub proof fn lemma_add_child_wf(t: Seq<NodeView>, parent: int, name: Seq<char>, path: Seq<char>)
    requires
        tree_wf(t),
        0 <= parent < t.len(),
        forall|i: int| 0 <= i < t.len() ==> (#[trigger] t[i]).path != path,
        path == join_path(t[parent].path, name),
        t[parent].depth < u32::MAX,
        t.len() < usize::MAX,
    ensures
        tree_wf(add_child(t, parent, name, path)),
        add_child(t, parent, name, path).len() == t.len() + 1,
{
    let u = add_child(t, parent, name, path);
    if parent == 0 {
        assert(u[0].path == t[0].path);
    } else {
        assert(u[0] == t[0]);
    }
    lemma_add_child_parents(t, parent, name, path);
    lemma_add_child_children(t, parent, name, path);
    lemma_add_child_depth(t, parent, name, path);
    lemma_add_child_paths(t, parent, name, path);
}

/// A node that was unread, turned into what it is once read: a folder, or
/// a file that could not be read line by line.
pub open spec fn opened(n: NodeView) -> NodeView {
    match n.kind {
        Kind::Unread { dir, .. } => NodeView {
            kind: if dir {
                Kind::Dir
            } else {
                Kind::Binary
            },
            ..n
        },
        _ => n,
    }
}

/// The tree after inserting the entries in order.
pub open spec fn insert_all(t: Seq<NodeView>, es: Seq<EntryView>) -> Seq<NodeView>
    decreases es.len(),
{
    if es.len() == 0 {
        t
    } else {
        insert_spec(insert_all(t, es.drop_last()), es.last())
    }
}

/// Number of path components of all entries.
pub open spec fn parts_total(es: Seq<EntryView>) -> nat
    decreases es.len(),
{
    if es.len() == 0 {
        0
    } else {
        parts_total(es.drop_last()) + split_chars(es.last().path, '/').len()
    }
}

/// The parts of a prefix of the entries are no more than those of all.
proof fn lemma_parts_total_prefix(es: Seq<EntryView>, k: int, m: int)
    requires
        0 <= k <= m <= es.len(),
    ensures
        parts_total(es.take(k)) <= parts_total(es.take(m)),
    decreases m - k,
{
    if k < m {
        lemma_parts_total_prefix(es, k, m - 1);
        assert(es.take(m).drop_last() =~= es.take(m - 1));
    }
    if m == es.len() {
        assert(es.take(m) =~= es);
    }
}

/// The tree after the entries read from the unread node `index` were put in.
pub open spec fn graft_spec(t: Seq<NodeView>, index: int, es: Seq<EntryView>) -> Seq<NodeView> {
    insert_all(t.update(index, opened(t[index])), es)
}

// ---------------------------------------------------------------------------
// Totals

/// Lines in the node and everything below it.
pub open spec fn sub_lines(t: Seq<NodeView>, i: int) -> nat
    decreases t.len() - i, 1nat, 0nat,
{
    if !(0 <= i < t.len()) {
        0
    } else {
        match t[i].kind {
            Kind::Text => t[i].lines.len(),
            Kind::Dir => children_lines(t, i, t[i].children.len() as int),
            _ => 0,
        }
    }
}

pub open spec fn children_lines(t: Seq<NodeView>, i: int, k: int) -> nat
    decreases t.len() - i, 0nat, k,
{
    if k <= 0 || !(0 <= i < t.len()) || k > t[i].children.len() {
        0
    } else {
        let c = t[i].children[k - 1] as int;
        children_lines(t, i, k - 1) + if i < c < t.len() {
            sub_lines(t, c)
        } else {
            0
        }
    }
}

/// Files in the node and everything below it.
pub open spec fn sub_files(t: Seq<NodeView>, i: int) -> nat
    decreases t.len() - i, 1nat, 0nat,
{
    if !(0 <= i < t.len()) {
        0
    } else {
        match t[i].kind {
            Kind::Text | Kind::Binary => 1,
            Kind::Dir => children_files(t, i, t[i].children.len() as int),
            _ => 0,
        }
    }
}

pub open spec fn children_files(t: Seq<NodeView>, i: int, k: int) -> nat
    decreases t.len() - i, 0nat, k,
{
    if k <= 0 || !(0 <= i < t.len()) || k > t[i].children.len() {
        0
    } else {
        let c = t[i].children[k - 1] as int;
        children_files(t, i, k - 1) + if i < c < t.len() {
            sub_files(t, c)
        } else {
            0
        }
    }
}

/// Bytes of the node: its own size, or for a folder the sizes below it.
pub open spec fn sub_bytes(t: Seq<NodeView>, i: int) -> nat
    decreases t.len() - i, 1nat, 0nat,
{
    if !(0 <= i < t.len()) {
        0
    } else {
        match t[i].kind {
            Kind::Dir => children_bytes(t, i, t[i].children.len() as int),
            _ => t[i].bytes as nat,
        }
    }
}

pub open spec fn children_bytes(t: Seq<NodeView>, i: int, k: int) -> nat
    decreases t.len() - i, 0nat, k,
{
    if k <= 0 || !(0 <= i < t.len()) || k > t[i].children.len() {
        0
    } else {
        let c = t[i].children[k - 1] as int;
        children_bytes(t, i, k - 1) + if i < c < t.len() {
            sub_bytes(t, c)
        } else {
            0
        }
    }
}

/// The totals fit the 64-bit fields they are kept in.
pub open spec fn totals_fit(t: Seq<NodeView>) -> bool {
    forall|i: int|
        0 <= i < t.len() ==> #[trigger] sub_lines(t, i) <= u64::MAX && sub_files(t, i) <= u64::MAX
            && sub_bytes(t, i) <= u64::MAX
}

/// A node with its totals recomputed.
pub open spec fn with_totals(t: Seq<NodeView>, i: int) -> NodeView {
    NodeView {
        total_lines: sub_lines(t, i) as u64,
        total_files: sub_files(t, i) as u64,
        bytes: if t[i].kind == Kind::Dir {
            sub_bytes(t, i) as u64
        } else {
            t[i].bytes
        },
        ..t[i]
    }
}

// ---------------------------------------------------------------------------
// Git activity

/// The activity recorded for a path, or none.
pub open spec fn hist_of(h: Map<Seq<char>, (u32, i64)>, p: Seq<char>) -> (u32, i64) {
    if h.contains_key(p) {
        h[p]
    } else {
        (0u32, 0i64)
    }
}

/// Commits of a node: its own, plus for a folder those of everything below it.
pub open spec fn sub_commits(t: Seq<NodeView>, h: Map<Seq<char>, (u32, i64)>, i: int) -> nat
    decreases t.len() - i, 1nat, 0nat,
{
    if !(0 <= i < t.len()) {
        0
    } else {
        hist_of(h, t[i].path).0 as nat + if t[i].kind == Kind::Dir {
            children_commits(t, h, i, t[i].children.len() as int)
        } else {
            0
        }
    }
}

pub open spec fn children_commits(t: Seq<NodeView>, h: Map<Seq<char>, (u32, i64)>, i: int, k: int) -> nat
    decreases t.len() - i, 0nat, k,
{
    if k <= 0 || !(0 <= i < t.len()) || k > t[i].children.len() {
        0
    } else {
        let c = t[i].children[k - 1] as int;
        children_commits(t, h, i, k - 1) + if i < c < t.len() {
            sub_commits(t, h, c)
        } else {
            0
        }
    }
}

pub open spec fn max_i64(a: i64, b: i64) -> i64 {
    if a >= b {
        a
    } else {
        b
    }
}

/// Last change of a node: its own, or for a folder the latest below it.
pub open spec fn sub_last(t: Seq<NodeView>, h: Map<Seq<char>, (u32, i64)>, i: int) -> i64
    decreases t.len() - i, 1nat, 0nat,
{
    if !(0 <= i < t.len()) {
        0
    } else if t[i].kind == Kind::Dir {
        max_i64(hist_of(h, t[i].path).1, children_last(t, h, i, t[i].children.len() as int))
    } else {
        hist_of(h, t[i].path).1
    }
}

pub open spec fn children_last(t: Seq<NodeView>, h: Map<Seq<char>, (u32, i64)>, i: int, k: int) -> i64
    decreases t.len() - i, 0nat, k,
{
    if k <= 0 || !(0 <= i < t.len()) || k > t[i].children.len() {
        i64::MIN
    } else {
        let c = t[i].children[k - 1] as int;
        max_i64(
            children_last(t, h, i, k - 1),
            if i < c < t.len() {
                sub_last(t, h, c)
            } else {
                i64::MIN
            },
        )
    }
}

/// The commit counts fit the 32-bit fields they are kept in.
pub open spec fn commits_fit(t: Seq<NodeView>, h: Map<Seq<char>, (u32, i64)>) -> bool {
    forall|i: int| 0 <= i < t.len() ==> #[trigger] sub_commits(t, h, i) <= u32::MAX
}

proof fn lemma_children_last_bounds(t: Seq<NodeView>, h: Map<Seq<char>, (u32, i64)>, i: int, m: int)
    requires
        tree_wf(t),
        0 <= i < t.len(),
        0 <= m <= t[i].children.len(),
    ensures
        forall|k: int| 0 <= k < m ==> children_last(t, h, i, m) >= sub_last(t, h, #[trigger] t[i].children[k] as int),
        children_last(t, h, i, m) == i64::MIN || exists|k: int|
            0 <= k < m && children_last(t, h, i, m) == sub_last(t, h, #[trigger] t[i].children[k] as int),
    decreases m,
{
    if m > 0 {
        lemma_children_last_bounds(t, h, i, m - 1);
        let c = t[i].children[m - 1] as int;
        assert(i < c < t.len()) by {
            reveal(children_ok);
        }
        if children_last(t, h, i, m) != i64::MIN && children_last(t, h, i, m) != children_last(t, h, i, m - 1) {
            assert(children_last(t, h, i, m) == sub_last(t, h, t[i].children[m - 1] as int));
        }
    }
}

/// After git activity is applied, a folder changed no earlier than any of
/// its children and than its own entry in the history, and its last change
/// is one of these: the latest. A node that is not a folder keeps the time
/// the history gives its own path.
pub proof fn lemma_last_change_is_latest(t: Seq<NodeView>, h: Map<Seq<char>, (u32, i64)>, i: int)
    requires
        tree_wf(t),
        0 <= i < t.len(),
    ensures
        t[i].kind != Kind::Dir ==> with_history(t, h, i).last_change == hist_of(h, t[i].path).1,
        t[i].kind == Kind::Dir ==> {
            &&& with_history(t, h, i).last_change >= hist_of(h, t[i].path).1
            &&& forall|k: int|
                0 <= k < t[i].children.len() ==> with_history(t, h, i).last_change >= with_history(
                    t,
                    h,
                    #[trigger] t[i].children[k] as int,
                ).last_change
            &&& with_history(t, h, i).last_change == hist_of(h, t[i].path).1 || exists|k: int|
                0 <= k < t[i].children.len() && with_history(t, h, i).last_change == with_history(
                    t,
                    h,
                    #[trigger] t[i].children[k] as int,
                ).last_change
        },
{
    if t[i].kind == Kind::Dir {
        let m = t[i].children.len() as int;
        lemma_children_last_bounds(t, h, i, m);
        let l = with_history(t, h, i).last_change;
        assert forall|k: int| 0 <= k < m implies l >= with_history(t, h, #[trigger] t[i].children[k] as int).last_change by {
            assert(children_last(t, h, i, m) >= sub_last(t, h, t[i].children[k] as int));
        }
        if l != hist_of(h, t[i].path).1 {
            let k = choose|k: int| 0 <= k < m && children_last(t, h, i, m) == sub_last(t, h, #[trigger] t[i].children[k] as int);
            assert(l == with_history(t, h, t[i].children[k] as int).last_change);
        }
    }
}

/// The trees have the same nodes as far as git activity goes: the same
/// paths, kinds and children.
pub open spec fn same_history_shape(t: Seq<NodeView>, u: Seq<NodeView>) -> bool {
    &&& u.len() == t.len()
    &&& forall|j: int|
        0 <= j < t.len() ==> {
            &&& (#[trigger] t[j]).path == u[j].path
            &&& t[j].kind == u[j].kind
            &&& t[j].children == u[j].children
        }
}

/// The activity a node gets depends on the paths, kinds and children alone.
pub proof fn lemma_history_same_shape(t: Seq<NodeView>, u: Seq<NodeView>, h: Map<Seq<char>, (u32, i64)>, i: int)
    requires
        same_history_shape(t, u),
    ensures
        sub_commits(t, h, i) == sub_commits(u, h, i),
        sub_last(t, h, i) == sub_last(u, h, i),
    decreases t.len() - i, 1nat,
{
    if 0 <= i < t.len() {
        assert(t[i].path == u[i].path && t[i].kind == u[i].kind && t[i].children == u[i].children);
        lemma_children_history_same_shape(t, u, h, i, t[i].children.len() as int);
    }
}

proof fn lemma_children_history_same_shape(
    t: Seq<NodeView>,
    u: Seq<NodeView>,
    h: Map<Seq<char>, (u32, i64)>,
    i: int,
    k: int,
)
    requires
        same_history_shape(t, u),
        0 <= i < t.len(),
    ensures
        children_commits(t, h, i, k) == children_commits(u, h, i, k),
        children_last(t, h, i, k) == children_last(u, h, i, k),
    decreases t.len() - i, 0nat, k,
{
    assert(t[i].children == u[i].children);
    if k > 0 && k <= t[i].children.len() {
        lemma_children_history_same_shape(t, u, h, i, k - 1);
        let c = t[i].children[k - 1] as int;
        if i < c < t.len() {
            lemma_history_same_shape(t, u, h, c);
        }
    }
}

/// A node with its git activity applied.
pub open spec fn with_history(t: Seq<NodeView>, h: Map<Seq<char>, (u32, i64)>, i: int) -> NodeView {
    NodeView { commits: sub_commits(t, h, i) as u32, last_change: sub_last(t, h, i), ..t[i] }
}

proof fn lemma_children_commits_mono(t: Seq<NodeView>, h: Map<Seq<char>, (u32, i64)>, i: int, k: int, m: int)
    requires
        0 <= i < t.len(),
        0 <= k <= m <= t[i].children.len(),
    ensures
        children_commits(t, h, i, k) <= children_commits(t, h, i, m),
    decreases m - k,
{
    if k < m {
        lemma_children_commits_mono(t, h, i, k, m - 1);
    }
}

/// A lone root is a tree.
proof fn lemma_root_wf(r: NodeView)
    requires
        r.parent is None,
        r.path == Seq::<char>::empty(),
        r.depth == 0,
        r.children.len() == 0,
    ensures
        tree_wf(seq![r]),
{
    assert(parents_ok(seq![r])) by {
        reveal(parents_ok);
    }
    assert(children_ok(seq![r])) by {
        reveal(children_ok);
    }
    assert(depth_ok(seq![r])) by {
        reveal(depth_ok);
    }
    assert(paths_unique(seq![r])) by {
        reveal(paths_unique);
    }
}

// ---------------------------------------------------------------------------
// What totals count

/// Node `j` is `i` or lies below it, reached from `i` through folders only.
pub open spec fn below(t: Seq<NodeView>, i: int, j: int) -> bool
    decreases j,
{
    if j == i {
        true
    } else if j <= 0 || j >= t.len() {
        false
    } else {
        match t[j].parent {
            Some(p) => p < j && t[p as int].kind == Kind::Dir && below(t, i, p as int),
            None => false,
        }
    }
}

/// The nodes below `i`, as a selection.
pub open spec fn below_of(t: Seq<NodeView>, i: int) -> spec_fn(int) -> bool {
    |j: int| below(t, i, j)
}

/// The sum of `own` over the nodes before `n` that `sel` selects.
pub open spec fn sum_where(own: spec_fn(int) -> nat, sel: spec_fn(int) -> bool, n: int) -> nat
    decreases n,
{
    if n <= 0 {
        0
    } else {
        sum_where(own, sel, n - 1) + if sel(n - 1) {
            own(n - 1)
        } else {
            0
        }
    }
}

/// A total built the way the tree builds its totals: a node's own amount,
/// plus for a folder the totals of its children.
pub open spec fn subtotal(t: Seq<NodeView>, own: spec_fn(int) -> nat, i: int) -> nat
    decreases t.len() - i, 1nat, 0nat,
{
    if !(0 <= i < t.len()) {
        0
    } else {
        own(i) + if t[i].kind == Kind::Dir {
            children_subtotal(t, own, i, t[i].children.len() as int)
        } else {
            0
        }
    }
}

pub open spec fn children_subtotal(t: Seq<NodeView>, own: spec_fn(int) -> nat, i: int, k: int) -> nat
    decreases t.len() - i, 0nat, k,
{
    if k <= 0 || !(0 <= i < t.len()) || k > t[i].children.len() {
        0
    } else {
        let c = t[i].children[k - 1] as int;
        children_subtotal(t, own, i, k - 1) + if i < c < t.len() {
            subtotal(t, own, c)
        } else {
            0
        }
    }
}

/// A file counts once.
pub open spec fn file_count(t: Seq<NodeView>) -> spec_fn(int) -> nat {
    |j: int|
        if 0 <= j < t.len() && (t[j].kind == Kind::Text || t[j].kind == Kind::Binary) {
            1nat
        } else {
            0nat
        }
}

/// A text file counts its lines.
pub open spec fn line_count(t: Seq<NodeView>) -> spec_fn(int) -> nat {
    |j: int|
        if 0 <= j < t.len() && t[j].kind == Kind::Text {
            t[j].lines.len()
        } else {
            0nat
        }
}

/// A file counts its own size; a folder adds nothing of its own.
pub open spec fn byte_count(t: Seq<NodeView>) -> spec_fn(int) -> nat {
    |j: int|
        if 0 <= j < t.len() && t[j].kind != Kind::Dir {
            t[j].bytes as nat
        } else {
            0nat
        }
}

/// A node counts the commits git recorded for its own path.
pub open spec fn commit_count(t: Seq<NodeView>, h: Map<Seq<char>, (u32, i64)>) -> spec_fn(int) -> nat {
    |j: int|
        if 0 <= j < t.len() {
            hist_of(h, t[j].path).0 as nat
        } else {
            0nat
        }
}

proof fn lemma_sum_ext(own: spec_fn(int) -> nat, p: spec_fn(int) -> bool, q: spec_fn(int) -> bool, n: int)
    requires
        forall|j: int| 0 <= j < n ==> #[trigger] p(j) == q(j),
    ensures
        sum_where(own, p, n) == sum_where(own, q, n),
    decreases n,
{
    if n > 0 {
        lemma_sum_ext(own, p, q, n - 1);
    }
}

proof fn lemma_sum_union(
    own: spec_fn(int) -> nat,
    p: spec_fn(int) -> bool,
    q: spec_fn(int) -> bool,
    r: spec_fn(int) -> bool,
    n: int,
)
    requires
        forall|j: int| 0 <= j < n ==> #[trigger] p(j) == (q(j) || r(j)),
        forall|j: int| 0 <= j < n ==> !(#[trigger] q(j) && r(j)),
    ensures
        sum_where(own, p, n) == sum_where(own, q, n) + sum_where(own, r, n),
    decreases n,
{
    if n > 0 {
        lemma_sum_union(own, p, q, r, n - 1);
    }
}

proof fn lemma_sum_none(own: spec_fn(int) -> nat, p: spec_fn(int) -> bool, n: int)
    requires
        forall|j: int| 0 <= j < n ==> !#[trigger] p(j),
    ensures
        sum_where(own, p, n) == 0,
    decreases n,
{
    if n > 0 {
        lemma_sum_none(own, p, n - 1);
    }
}

proof fn lemma_sum_single(own: spec_fn(int) -> nat, p: spec_fn(int) -> bool, i: int, n: int)
    requires
        0 <= i < n,
        forall|j: int| 0 <= j < n ==> #[trigger] p(j) == (j == i),
    ensures
        sum_where(own, p, n) == own(i),
    decreases n,
{
    if n - 1 > i {
        lemma_sum_single(own, p, i, n - 1);
    } else {
        lemma_sum_none(own, p, n - 1);
    }
}

proof fn lemma_below_le(t: Seq<NodeView>, a: int, j: int)
    requires
        below(t, a, j),
    ensures
        a <= j,
    decreases j,
{
    if j != a {
        let p = t[j].parent->0 as int;
        lemma_below_le(t, a, p);
    }
}

proof fn lemma_below_trans(t: Seq<NodeView>, a: int, b: int, j: int)
    requires
        below(t, a, b),
        below(t, b, j),
    ensures
        below(t, a, j),
    decreases j,
{
    if j != b && j != a {
        let p = t[j].parent->0 as int;
        lemma_below_trans(t, a, b, p);
    }
}

/// Two nodes above the same node lie one below the other.
proof fn lemma_below_linear(t: Seq<NodeView>, a: int, b: int, j: int)
    requires
        below(t, a, j),
        below(t, b, j),
    ensures
        below(t, a, b) || below(t, b, a),
    decreases j,
{
    if j != a && j != b {
        let p = t[j].parent->0 as int;
        lemma_below_linear(t, a, b, p);
    }
}

/// Below a node and apart from it means below a folder's child.
proof fn lemma_below_child(t: Seq<NodeView>, i: int, j: int)
    requires
        tree_wf(t),
        t.len() <= usize::MAX,
        0 <= i < t.len(),
        below(t, i, j),
        j != i,
    ensures
        t[i].kind == Kind::Dir,
        exists|k: int| 0 <= k < t[i].children.len() && below(t, #[trigger] t[i].children[k] as int, j),
    decreases j,
{
    let p = t[j].parent->0 as int;
    assert(0 < j < t.len());
    assert(p < j && t[p].kind == Kind::Dir && below(t, i, p));
    if p == i {
        assert(t[p].children.contains(j as usize)) by {
            reveal(parents_ok);
            assert(t[j].parent is Some);
        }
        let k = choose|k: int| 0 <= k < t[p].children.len() && t[p].children[k] == j as usize;
        assert(t[i].children[k] as int == j);
        assert(below(t, t[i].children[k] as int, j));
    } else {
        lemma_below_child(t, i, p);
        let k = choose|k: int| 0 <= k < t[i].children.len() && below(t, #[trigger] t[i].children[k] as int, p);
        let c = t[i].children[k] as int;
        assert(below(t, p, p));
        assert(below(t, p, j));
        lemma_below_trans(t, c, p, j);
        assert(below(t, t[i].children[k] as int, j));
    }
}

/// Below a folder's child means below the folder, and apart from it.
proof fn lemma_child_below(t: Seq<NodeView>, i: int, k: int, j: int)
    requires
        tree_wf(t),
        0 <= i < t.len(),
        t[i].kind == Kind::Dir,
        0 <= k < t[i].children.len(),
        below(t, t[i].children[k] as int, j),
    ensures
        below(t, i, j),
        j != i,
{
    let c = t[i].children[k] as int;
    assert(i < c < t.len() && t[c].parent == Some(i as usize)) by {
        reveal(children_ok);
    }
    assert(t[c].parent->0 as int == i);
    assert(below(t, i, i));
    assert(below(t, i, c));
    lemma_below_trans(t, i, c, j);
    lemma_below_le(t, c, j);
}

/// Nothing lies below two different children of a folder.
proof fn lemma_children_apart(t: Seq<NodeView>, i: int, a: int, b: int, j: int)
    requires
        tree_wf(t),
        0 <= i < t.len(),
        0 <= a < b < t[i].children.len(),
    ensures
        !(below(t, t[i].children[a] as int, j) && below(t, t[i].children[b] as int, j)),
{
    reveal(children_ok);
    let ca = t[i].children[a] as int;
    let cb = t[i].children[b] as int;
    assert(ca != cb);
    assert(i < ca && t[ca].parent == Some(i as usize));
    assert(i < cb && t[cb].parent == Some(i as usize));
    if below(t, ca, j) && below(t, cb, j) {
        lemma_below_linear(t, ca, cb, j);
        if below(t, ca, cb) {
            lemma_below_le(t, ca, i);
        } else {
            lemma_below_le(t, cb, i);
        }
    }
}

/// Below one of the first `m` children of `i`.
pub open spec fn below_children(t: Seq<NodeView>, i: int, m: int) -> spec_fn(int) -> bool {
    |j: int| exists|k: int| 0 <= k < m && below(t, #[trigger] t[i].children[k] as int, j)
}

/// Apart from `i`, below it.
pub open spec fn strictly_below(t: Seq<NodeView>, i: int) -> spec_fn(int) -> bool {
    |j: int| below(t, i, j) && j != i
}

/// Only `i` itself.
pub open spec fn just(i: int) -> spec_fn(int) -> bool {
    |j: int| j == i
}

/// A total built as the tree builds its totals counts the amount of every
/// node below, each once.
proof fn lemma_subtotal_sum(t: Seq<NodeView>, own: spec_fn(int) -> nat, i: int)
    requires
        tree_wf(t),
        t.len() <= usize::MAX,
        0 <= i < t.len(),
    ensures
        subtotal(t, own, i) == sum_where(own, below_of(t, i), t.len() as int),
    decreases t.len() - i, 1nat,
{
    let n = t.len() as int;
    lemma_sum_union(own, below_of(t, i), just(i), strictly_below(t, i), n);
    lemma_sum_single(own, just(i), i, n);
    if t[i].kind == Kind::Dir {
        let m = t[i].children.len() as int;
        lemma_children_subtotal_sum(t, own, i, m);
        assert forall|j: int| 0 <= j < n implies #[trigger] strictly_below(t, i)(j) == below_children(t, i, m)(j) by {
            if strictly_below(t, i)(j) {
                lemma_below_child(t, i, j);
            }
            if below_children(t, i, m)(j) {
                let k = choose|k: int| 0 <= k < m && below(t, #[trigger] t[i].children[k] as int, j);
                lemma_child_below(t, i, k, j);
            }
        }
        lemma_sum_ext(own, strictly_below(t, i), below_children(t, i, m), n);
    } else {
        assert forall|j: int| 0 <= j < n implies !#[trigger] strictly_below(t, i)(j) by {
            if strictly_below(t, i)(j) {
                lemma_below_child(t, i, j);
            }
        }
        lemma_sum_none(own, strictly_below(t, i), n);
    }
}

proof fn lemma_children_subtotal_sum(t: Seq<NodeView>, own: spec_fn(int) -> nat, i: int, m: int)
    requires
        tree_wf(t),
        t.len() <= usize::MAX,
        0 <= i < t.len(),
        0 <= m <= t[i].children.len(),
    ensures
        children_subtotal(t, own, i, m) == sum_where(own, below_children(t, i, m), t.len() as int),
    decreases t.len() - i, 0nat, m,
{
    let n = t.len() as int;
    if m == 0 {
        lemma_sum_none(own, below_children(t, i, 0), n);
    } else {
        reveal(children_ok);
        let c = t[i].children[m - 1] as int;
        assert(i < c < t.len());
        lemma_children_subtotal_sum(t, own, i, m - 1);
        lemma_subtotal_sum(t, own, c);
        assert forall|j: int| 0 <= j < n implies #[trigger] below_children(t, i, m)(j) == (below_children(
            t,
            i,
            m - 1,
        )(j) || below_of(t, c)(j)) by {
            if below_children(t, i, m)(j) {
                let k = choose|k: int| 0 <= k < m && below(t, #[trigger] t[i].children[k] as int, j);
                if k < m - 1 {
                    assert(below_children(t, i, m - 1)(j));
                }
            }
            if below_of(t, c)(j) {
                assert(below(t, t[i].children[m - 1] as int, j));
            }
            if below_children(t, i, m - 1)(j) {
                let k = choose|k: int| 0 <= k < m - 1 && below(t, #[trigger] t[i].children[k] as int, j);
                assert(below(t, t[i].children[k] as int, j));
            }
        }
        assert forall|j: int| 0 <= j < n implies !(#[trigger] below_children(t, i, m - 1)(j) && below_of(t, c)(j)) by {
            if below_children(t, i, m - 1)(j) && below_of(t, c)(j) {
                let k = choose|k: int| 0 <= k < m - 1 && below(t, #[trigger] t[i].children[k] as int, j);
                lemma_children_apart(t, i, k, m - 1, j);
            }
        }
        lemma_sum_union(own, below_children(t, i, m), below_children(t, i, m - 1), below_of(t, c), n);
    }
}

proof fn lemma_sub_files_subtotal(t: Seq<NodeView>, i: int)
    requires
        0 <= i < t.len(),
    ensures
        sub_files(t, i) == subtotal(t, file_count(t), i),
    decreases t.len() - i, 1nat,
{
    if t[i].kind == Kind::Dir {
        lemma_children_files_subtotal(t, i, t[i].children.len() as int);
    }
}

proof fn lemma_children_files_subtotal(t: Seq<NodeView>, i: int, k: int)
    requires
        0 <= i < t.len(),
        0 <= k <= t[i].children.len(),
    ensures
        children_files(t, i, k) == children_subtotal(t, file_count(t), i, k),
    decreases t.len() - i, 0nat, k,
{
    if k > 0 {
        lemma_children_files_subtotal(t, i, k - 1);
        let c = t[i].children[k - 1] as int;
        if i < c < t.len() {
            lemma_sub_files_subtotal(t, c);
        }
    }
}

proof fn lemma_sub_lines_subtotal(t: Seq<NodeView>, i: int)
    requires
        0 <= i < t.len(),
    ensures
        sub_lines(t, i) == subtotal(t, line_count(t), i),
    decreases t.len() - i, 1nat,
{
    if t[i].kind == Kind::Dir {
        lemma_children_lines_subtotal(t, i, t[i].children.len() as int);
    }
}

proof fn lemma_children_lines_subtotal(t: Seq<NodeView>, i: int, k: int)
    requires
        0 <= i < t.len(),
        0 <= k <= t[i].children.len(),
    ensures
        children_lines(t, i, k) == children_subtotal(t, line_count(t), i, k),
    decreases t.len() - i, 0nat, k,
{
    if k > 0 {
        lemma_children_lines_subtotal(t, i, k - 1);
        let c = t[i].children[k - 1] as int;
        if i < c < t.len() {
            lemma_sub_lines_subtotal(t, c);
        }
    }
}

proof fn lemma_sub_bytes_subtotal(t: Seq<NodeView>, i: int)
    requires
        0 <= i < t.len(),
    ensures
        sub_bytes(t, i) == subtotal(t, byte_count(t), i),
    decreases t.len() - i, 1nat,
{
    if t[i].kind == Kind::Dir {
        lemma_children_bytes_subtotal(t, i, t[i].children.len() as int);
    }
}

proof fn lemma_children_bytes_subtotal(t: Seq<NodeView>, i: int, k: int)
    requires
        0 <= i < t.len(),
        0 <= k <= t[i].children.len(),
    ensures
        children_bytes(t, i, k) == children_subtotal(t, byte_count(t), i, k),
    decreases t.len() - i, 0nat, k,
{
    if k > 0 {
        lemma_children_bytes_subtotal(t, i, k - 1);
        let c = t[i].children[k - 1] as int;
        if i < c < t.len() {
            lemma_sub_bytes_subtotal(t, c);
        }
    }
}

proof fn lemma_sub_commits_subtotal(t: Seq<NodeView>, h: Map<Seq<char>, (u32, i64)>, i: int)
    requires
        0 <= i < t.len(),
    ensures
        sub_commits(t, h, i) == subtotal(t, commit_count(t, h), i),
    decreases t.len() - i, 1nat,
{
    if t[i].kind == Kind::Dir {
        lemma_children_commits_subtotal(t, h, i, t[i].children.len() as int);
    }
}

proof fn lemma_children_commits_subtotal(t: Seq<NodeView>, h: Map<Seq<char>, (u32, i64)>, i: int, k: int)
    requires
        0 <= i < t.len(),
        0 <= k <= t[i].children.len(),
    ensures
        children_commits(t, h, i, k) == children_subtotal(t, commit_count(t, h), i, k),
    decreases t.len() - i, 0nat, k,
{
    if k > 0 {
        lemma_children_commits_subtotal(t, h, i, k - 1);
        let c = t[i].children[k - 1] as int;
        if i < c < t.len() {
            lemma_sub_commits_subtotal(t, h, c);
        }
    }
}

/// A node's totals count what it and everything below it hold: the files,
/// the lines, the bytes and the commits of every node reached from it
/// through folders, each once.
pub proof fn lemma_totals_count_below(t: Seq<NodeView>, h: Map<Seq<char>, (u32, i64)>, i: int)
    requires
        tree_wf(t),
        t.len() <= usize::MAX,
        0 <= i < t.len(),
    ensures
        sub_files(t, i) == sum_where(file_count(t), below_of(t, i), t.len() as int),
        sub_lines(t, i) == sum_where(line_count(t), below_of(t, i), t.len() as int),
        sub_bytes(t, i) == sum_where(byte_count(t), below_of(t, i), t.len() as int),
        sub_commits(t, h, i) == sum_where(commit_count(t, h), below_of(t, i), t.len() as int),
{
    lemma_sub_files_subtotal(t, i);
    lemma_subtotal_sum(t, file_count(t), i);
    lemma_sub_lines_subtotal(t, i);
    lemma_subtotal_sum(t, line_count(t), i);
    lemma_sub_bytes_subtotal(t, i);
    lemma_subtotal_sum(t, byte_count(t), i);
    lemma_sub_commits_subtotal(t, h, i);
    lemma_subtotal_sum(t, commit_count(t, h), i);
}

// ---------------------------------------------------------------------------
// Search

/// A node other than the root whose lower-cased path holds every word.
pub open spec fn node_hit(t: Seq<NodeView>, ws: Seq<Seq<char>>, i: int) -> bool {
    0 < i < t.len() && forall|w: int| 0 <= w < ws.len() ==> contains_seq(lowercase(t[i].path), #[trigger] ws[w])
}

/// A node is lit when it matches or a folder above it is lit.
pub open spec fn lit_spec(t: Seq<NodeView>, ws: Seq<Seq<char>>, i: int) -> bool
    decreases i,
{
    if !(0 <= i < t.len()) {
        false
    } else {
        node_hit(t, ws, i) || parent_lit(t, ws, i)
    }
}

/// The parent of the node is lit.
pub open spec fn parent_lit(t: Seq<NodeView>, ws: Seq<Seq<char>>, i: int) -> bool
    decreases i, 0nat,
{
    if !(0 <= i < t.len()) {
        false
    } else {
        match t[i].parent {
            Some(p) => 0 <= p < i && lit_spec(t, ws, p as int),
            None => false,
        }
    }
}

/// A node is on the path to a match when it is lit or one of its children is.
pub open spec fn on_path_spec(t: Seq<NodeView>, ws: Seq<Seq<char>>, i: int) -> bool
    decreases t.len() - i, 1nat, 0nat,
{
    if !(0 <= i < t.len()) {
        false
    } else {
        lit_spec(t, ws, i) || children_on_path(t, ws, i, t[i].children.len() as int)
    }
}

pub open spec fn children_on_path(t: Seq<NodeView>, ws: Seq<Seq<char>>, i: int, k: int) -> bool
    decreases t.len() - i, 0nat, k,
{
    if k <= 0 || !(0 <= i < t.len()) || k > t[i].children.len() {
        false
    } else {
        let c = t[i].children[k - 1] as int;
        children_on_path(t, ws, i, k - 1) || (i < c < t.len() && on_path_spec(t, ws, c))
    }
}

/// The matches among the first `n` nodes, in order: matching nodes whose
/// parent is not lit (a match inside a matching folder adds nothing).
pub open spec fn match_list(t: Seq<NodeView>, ws: Seq<Seq<char>>, n: int) -> Seq<usize>
    decreases n,
{
    if n <= 0 {
        seq![]
    } else {
        let prev = match_list(t, ws, n - 1);
        if node_hit(t, ws, n - 1) && !parent_lit(t, ws, n - 1) {
            prev.push((n - 1) as usize)
        } else {
            prev
        }
    }
}

/// The matches come in tree order, each one once, and are among the first
/// `n` nodes.
pub proof fn lemma_match_list_in_order(t: Seq<NodeView>, ws: Seq<Seq<char>>, n: int)
    requires
        0 <= n <= usize::MAX,
    ensures
        forall|j: int| 0 <= j < match_list(t, ws, n).len() ==> #[trigger] match_list(t, ws, n)[j] < n,
        forall|j: int, k: int|
            0 <= j < k < match_list(t, ws, n).len() ==> #[trigger] match_list(t, ws, n)[j] < #[trigger] match_list(
                t,
                ws,
                n,
            )[k],
    decreases n,
{
    if n > 0 {
        lemma_match_list_in_order(t, ws, n - 1);
        let prev = match_list(t, ws, n - 1);
        let cur = match_list(t, ws, n);
        assert(forall|j: int| 0 <= j < prev.len() ==> #[trigger] prev[j] < n - 1);
        if node_hit(t, ws, n - 1) && !parent_lit(t, ws, n - 1) {
            assert(cur == prev.push((n - 1) as usize));
            assert forall|j: int| 0 <= j < cur.len() implies #[trigger] cur[j] < n by {
                if j < prev.len() {
                    assert(cur[j] == prev[j]);
                }
            }
            assert forall|j: int, k: int| 0 <= j < k < cur.len() implies #[trigger] cur[j] < #[trigger] cur[k] by {
                assert(cur[j] == prev[j]);
                assert(prev[j] < n - 1);
                if k < prev.len() {
                    assert(cur[k] == prev[k]);
                    assert(prev[j] < prev[k]);
                } else {
                    assert(cur[k] == n - 1);
                }
            }
        } else {
            assert(cur == prev);
        }
    }
}

/// Every hit whose parent is not lit is among the matches: nothing that
/// matches on its own is left out.
pub proof fn lemma_match_list_complete(t: Seq<NodeView>, ws: Seq<Seq<char>>, n: int, i: int)
    requires
        0 <= i < n,
        node_hit(t, ws, i),
        !parent_lit(t, ws, i),
    ensures
        match_list(t, ws, n).contains(i as usize),
    decreases n,
{
    if i < n - 1 {
        lemma_match_list_complete(t, ws, n - 1, i);
        let prev = match_list(t, ws, n - 1);
        let j = choose|j: int| 0 <= j < prev.len() && prev[j] == i as usize;
        if node_hit(t, ws, n - 1) && !parent_lit(t, ws, n - 1) {
            assert(match_list(t, ws, n)[j] == i as usize);
        }
    } else {
        let cur = match_list(t, ws, n);
        assert(cur[cur.len() - 1] == i as usize);
    }
}

/// Node `j` is `a` or lies somewhere below it.
pub open spec fn under(t: Seq<NodeView>, a: int, j: int) -> bool
    decreases j,
{
    if j == a {
        true
    } else if j <= 0 || j >= t.len() {
        false
    } else {
        match t[j].parent {
            Some(p) => p < j && under(t, a, p as int),
            None => false,
        }
    }
}

/// A search lights a node exactly when the node itself or a folder above
/// it matches.
pub proof fn lemma_lit_iff_match_above(t: Seq<NodeView>, ws: Seq<Seq<char>>, i: int)
    requires
        0 <= i < t.len(),
    ensures
        lit_spec(t, ws, i) <==> exists|a: int| #[trigger] under(t, a, i) && node_hit(t, ws, a),
    decreases i,
{
    if lit_spec(t, ws, i) {
        if node_hit(t, ws, i) {
            assert(under(t, i, i));
        } else {
            let p = t[i].parent->0 as int;
            lemma_lit_iff_match_above(t, ws, p);
            let a = choose|a: int| #[trigger] under(t, a, p) && node_hit(t, ws, a);
            assert(under(t, a, i));
        }
    }
    if exists|a: int| #[trigger] under(t, a, i) && node_hit(t, ws, a) {
        let a = choose|a: int| #[trigger] under(t, a, i) && node_hit(t, ws, a);
        if a != i {
            let p = t[i].parent->0 as int;
            assert(0 <= p < i && under(t, a, p));
            lemma_lit_iff_match_above(t, ws, p);
        }
    }
}

proof fn lemma_under_trans(t: Seq<NodeView>, a: int, b: int, j: int)
    requires
        under(t, a, b),
        under(t, b, j),
    ensures
        under(t, a, j),
    decreases j,
{
    if j != b && j != a {
        let p = t[j].parent->0 as int;
        lemma_under_trans(t, a, b, p);
    }
}

proof fn lemma_under_le(t: Seq<NodeView>, a: int, j: int)
    requires
        under(t, a, j),
    ensures
        a <= j,
    decreases j,
{
    if j != a {
        let p = t[j].parent->0 as int;
        lemma_under_le(t, a, p);
    }
}

/// Strictly below a node means below one of its children.
proof fn lemma_under_child(t: Seq<NodeView>, i: int, j: int)
    requires
        tree_wf(t),
        t.len() <= usize::MAX,
        0 <= i < t.len(),
        under(t, i, j),
        j != i,
    ensures
        exists|k: int| 0 <= k < t[i].children.len() && under(t, #[trigger] t[i].children[k] as int, j),
    decreases j,
{
    let p = t[j].parent->0 as int;
    assert(0 < j < t.len());
    assert(p < j && under(t, i, p));
    if p == i {
        assert(t[p].children.contains(j as usize)) by {
            reveal(parents_ok);
            assert(t[j].parent is Some);
        }
        let k = choose|k: int| 0 <= k < t[p].children.len() && t[p].children[k] == j as usize;
        assert(t[i].children[k] as int == j);
        assert(under(t, t[i].children[k] as int, j));
    } else {
        lemma_under_child(t, i, p);
        let k = choose|k: int| 0 <= k < t[i].children.len() && under(t, #[trigger] t[i].children[k] as int, p);
        let c = t[i].children[k] as int;
        assert(under(t, p, p));
        assert(under(t, p, j));
        lemma_under_trans(t, c, p, j);
        assert(under(t, t[i].children[k] as int, j));
    }
}

/// Below a child means strictly below the node.
proof fn lemma_child_under(t: Seq<NodeView>, i: int, k: int, j: int)
    requires
        tree_wf(t),
        0 <= i < t.len(),
        0 <= k < t[i].children.len(),
        under(t, t[i].children[k] as int, j),
    ensures
        under(t, i, j),
        j != i,
{
    let c = t[i].children[k] as int;
    assert(i < c < t.len() && t[c].parent == Some(i as usize)) by {
        reveal(children_ok);
    }
    assert(t[c].parent->0 as int == i);
    assert(under(t, i, i));
    assert(under(t, i, c));
    lemma_under_trans(t, i, c, j);
    lemma_under_le(t, c, j);
}

/// Some child among the first `m` is on the path to a match.
proof fn lemma_children_on_path(t: Seq<NodeView>, ws: Seq<Seq<char>>, i: int, m: int)
    requires
        0 <= i < t.len(),
        0 <= m <= t[i].children.len(),
    ensures
        children_on_path(t, ws, i, m) <==> exists|k: int|
            0 <= k < m && i < #[trigger] t[i].children[k] < t.len() && on_path_spec(
                t,
                ws,
                t[i].children[k] as int,
            ),
    decreases m,
{
    if m > 0 {
        lemma_children_on_path(t, ws, i, m - 1);
        let c = t[i].children[m - 1];
        if i < c < t.len() && on_path_spec(t, ws, c as int) {
            assert(i < t[i].children[m - 1] < t.len());
        }
        if exists|k: int|
            0 <= k < m && i < #[trigger] t[i].children[k] < t.len() && on_path_spec(t, ws, t[i].children[k] as int) {
            let k = choose|k: int|
                0 <= k < m && i < #[trigger] t[i].children[k] < t.len() && on_path_spec(
                    t,
                    ws,
                    t[i].children[k] as int,
                );
            if k < m - 1 {
                assert(children_on_path(t, ws, i, m - 1));
            }
        }
    }
}

/// A search marks a node as on the path to a match exactly when it is lit
/// or something below it matches.
pub proof fn lemma_on_path_iff_match_below(t: Seq<NodeView>, ws: Seq<Seq<char>>, i: int)
    requires
        tree_wf(t),
        t.len() <= usize::MAX,
        0 <= i < t.len(),
    ensures
        on_path_spec(t, ws, i) <==> (lit_spec(t, ws, i) || exists|j: int|
            #[trigger] under(t, i, j) && j != i && node_hit(t, ws, j)),
    decreases t.len() - i,
{
    let m = t[i].children.len() as int;
    lemma_children_on_path(t, ws, i, m);
    if on_path_spec(t, ws, i) && !lit_spec(t, ws, i) {
        let k = choose|k: int|
            0 <= k < m && i < #[trigger] t[i].children[k] < t.len() && on_path_spec(t, ws, t[i].children[k] as int);
        let c = t[i].children[k] as int;
        lemma_on_path_iff_match_below(t, ws, c);
        assert(under(t, c, c));
        lemma_child_under(t, i, k, c);
        if exists|j: int| #[trigger] under(t, c, j) && j != c && node_hit(t, ws, j) {
            let j = choose|j: int| #[trigger] under(t, c, j) && j != c && node_hit(t, ws, j);
            lemma_child_under(t, i, k, j);
        } else {
            assert(t[c].parent == Some(i as usize)) by {
                reveal(children_ok);
            }
            assert(!parent_lit(t, ws, c));
            assert(node_hit(t, ws, c));
        }
    }
    if !lit_spec(t, ws, i) && exists|j: int| #[trigger] under(t, i, j) && j != i && node_hit(t, ws, j) {
        let j = choose|j: int| #[trigger] under(t, i, j) && j != i && node_hit(t, ws, j);
        lemma_under_child(t, i, j);
        let k = choose|k: int| 0 <= k < m && under(t, #[trigger] t[i].children[k] as int, j);
        let c = t[i].children[k] as int;
        assert(i < c < t.len()) by {
            reveal(children_ok);
        }
        lemma_on_path_iff_match_below(t, ws, c);
        if j == c {
            assert(lit_spec(t, ws, c));
        }
        assert(on_path_spec(t, ws, c));
        assert(i < t[i].children[k] < t.len());
    }
}

/// A search ignores letter case: a node other than the root whose path,
/// lower-cased, holds every whitespace separated word of the query,
/// lower-cased, is lit by the search; and when no folder above it is lit,
/// it is listed among the matches.
pub proof fn lemma_search_ignores_case(t: Seq<NodeView>, q: Seq<char>, i: int)
    requires
        0 < i < t.len(),
        forall|w: int|
            0 <= w < words(q).len() ==> contains_seq(lowercase(t[i].path), lowercase(#[trigger] words(q)[w])),
    ensures
        searched(t, query_words(q), i).lit,
        query_words(q).len() > 0 && i <= usize::MAX && !parent_lit(t, query_words(q), i) ==> match_list(
            t,
            query_words(q),
            t.len() as int,
        ).contains(i as usize),
{
    let ws = query_words(q);
    assert forall|w: int| 0 <= w < ws.len() implies contains_seq(lowercase(t[i].path), #[trigger] ws[w]) by {
        assert(ws[w] == lowercase(words(q)[w]));
    }
    assert(node_hit(t, ws, i));
    if ws.len() > 0 && !parent_lit(t, ws, i) {
        lemma_match_list_complete(t, ws, t.len() as int, i);
    }
}

/// The search words of a query: its whitespace separated words in lower case.
pub open spec fn query_words(query: Seq<char>) -> Seq<Seq<char>> {
    words(query).map_values(|w: Seq<char>| lowercase(w))
}

/// A node after a search for `ws`.
pub open spec fn searched(t: Seq<NodeView>, ws: Seq<Seq<char>>, i: int) -> NodeView {
    if ws.len() == 0 {
        NodeView { lit: true, on_path: true, ..t[i] }
    } else {
        NodeView { lit: lit_spec(t, ws, i), on_path: on_path_spec(t, ws, i), ..t[i] }
    }
}

/// A node's parent comes before it; only the root has none. So walking the
/// nodes backwards visits children before their parents.
pub proof fn lemma_parent_before(t: Seq<NodeView>, i: int)
    requires
        tree_wf(t),
        0 <= i < t.len(),
    ensures
        t[i].parent matches Some(p) ==> p < i,
        t[i].parent is None ==> i == 0,
{
    reveal(parents_ok);
}

/// The top-level folder a node lives in: its ancestor just below the root
/// (the node itself when it is at the top or is the root).
pub open spec fn top_level_spec(t: Seq<NodeView>, i: int) -> int
    decreases i,
{
    if !(0 <= i < t.len()) {
        i
    } else {
        match t[i].parent {
            Some(p) => if p == 0 || p >= i {
                i
            } else {
                top_level_spec(t, p as int)
            },
            None => i,
        }
    }
}

/// The top-level folder of a node lies above it (or is the node) and sits
/// just below the root; only the root is its own top level without a parent.
pub proof fn lemma_top_level_above(t: Seq<NodeView>, i: int)
    requires
        tree_wf(t),
        0 <= i < t.len(),
    ensures
        under(t, top_level_spec(t, i), i),
        0 <= top_level_spec(t, i) < t.len(),
        t[top_level_spec(t, i)].parent == Some(0usize) || top_level_spec(t, i) == 0,
    decreases i,
{
    lemma_parent_before(t, i);
    match t[i].parent {
        Some(p) => {
            if p != 0 {
                lemma_top_level_above(t, p as int);
                let r = top_level_spec(t, p as int);
                lemma_under_le(t, r, p as int);
                assert(under(t, r, i));
            }
        },
        None => {},
    }
}

// ---------------------------------------------------------------------------
// Heat

/// The divisor of the heat ranks after ranking `t` for `mode`: one less
/// than the number of ranked files, at least 1; kept as `scale` when
/// nothing is ranked.
pub open spec fn heat_scale_after(t: Seq<NodeView>, mode: ColorMode, scale: usize) -> usize {
    if mode != ColorMode::FileType && ranked_values(t, mode, t.len() as int).len() > 0 {
        let n = ranked_values(t, mode, t.len() as int).len();
        if n >= 2 {
            (n - 1) as usize
        } else {
            1usize
        }
    } else {
        scale
    }
}

/// Files that git touched take part in the heatmap ranking.
pub open spec fn ranked(n: NodeView) -> bool {
    (n.kind == Kind::Text || n.kind == Kind::Binary) && n.commits > 0
}

/// The value a color mode ranks files by.
pub open spec fn heat_value(n: NodeView, mode: ColorMode) -> i64 {
    if mode == ColorMode::Churn {
        n.commits as i64
    } else {
        n.last_change
    }
}

/// The ranked values of the first `k` nodes, in tree order.
pub open spec fn ranked_values(t: Seq<NodeView>, mode: ColorMode, k: int) -> Seq<i64>
    decreases k,
{
    if k <= 0 {
        seq![]
    } else {
        let prev = ranked_values(t, mode, k - 1);
        if ranked(t[k - 1]) {
            prev.push(heat_value(t[k - 1], mode))
        } else {
            prev
        }
    }
}

/// A node after ranking: its rank is the number of ranked files with a
/// strictly smaller value, so equal values share a rank.
pub open spec fn heated(t: Seq<NodeView>, mode: ColorMode, i: int) -> NodeView {
    NodeView {
        heat_rank: if mode != ColorMode::FileType && ranked(t[i]) {
            Some(count_below(ranked_values(t, mode, t.len() as int), heat_value(t[i], mode)) as usize)
        } else {
            None
        },
        ..t[i]
    }
}

/// Heat ranks follow the ranked values: a smaller value gets a smaller
/// rank, equal values share one, and every rank is below the number of
/// ranked files.
pub proof fn lemma_heat_order(t: Seq<NodeView>, mode: ColorMode, i: int, j: int)
    requires
        0 <= i < t.len(),
        0 <= j < t.len(),
        mode != ColorMode::FileType,
        ranked(t[i]),
        ranked(t[j]),
        t.len() <= usize::MAX,
    ensures
        heated(t, mode, i).heat_rank matches Some(ri) && heated(t, mode, j).heat_rank matches Some(rj) && {
            &&& heat_value(t[i], mode) < heat_value(t[j], mode) ==> ri < rj
            &&& heat_value(t[i], mode) == heat_value(t[j], mode) ==> ri == rj
            &&& ri < ranked_values(t, mode, t.len() as int).len()
        },
{
    let vs = ranked_values(t, mode, t.len() as int);
    lemma_ranked_values_has(t, mode, t.len() as int, i);
    lemma_ranked_values_has(t, mode, t.len() as int, j);
    lemma_ranked_values_len(t, mode, t.len() as int);
    let vi = heat_value(t[i], mode);
    let vj = heat_value(t[j], mode);
    crate::sort::lemma_count_below_mono(vs, vi, vj);
    crate::sort::lemma_count_below_lt_len(vs, vi);
    crate::sort::lemma_count_below_lt_len(vs, vj);
    assert(count_below(vs, vi) < usize::MAX);
    assert(count_below(vs, vj) < usize::MAX);
    assert(heated(t, mode, i).heat_rank == Some(count_below(vs, vi) as usize));
    assert(heated(t, mode, j).heat_rank == Some(count_below(vs, vj) as usize));
}

/// The value of every ranked node is among the ranked values.
proof fn lemma_ranked_values_has(t: Seq<NodeView>, mode: ColorMode, k: int, i: int)
    requires
        0 <= i < k <= t.len(),
        ranked(t[i]),
    ensures
        ranked_values(t, mode, k).contains(heat_value(t[i], mode)),
    decreases k,
{
    let prev = ranked_values(t, mode, k - 1);
    let cur = ranked_values(t, mode, k);
    if i < k - 1 {
        lemma_ranked_values_has(t, mode, k - 1, i);
        let w = choose|w: int| 0 <= w < prev.len() && prev[w] == heat_value(t[i], mode);
        if ranked(t[k - 1]) {
            assert(cur[w] == prev[w]);
        }
    } else {
        assert(cur[cur.len() - 1] == heat_value(t[i], mode));
    }
}

proof fn lemma_ranked_values_len(t: Seq<NodeView>, mode: ColorMode, k: int)
    requires
        0 <= k,
    ensures
        ranked_values(t, mode, k).len() <= k,
    decreases k,
{
    if k > 0 {
        lemma_ranked_values_len(t, mode, k - 1);
    }
}

proof fn lemma_parts_total_skip(es: Seq<EntryView>, k: int)
    requires
        0 <= k < es.len(),
    ensures
        parts_total(es.skip(k)) == split_chars(es[k].path, '/').len() + parts_total(es.skip(k + 1)),
    decreases es.len() - k,
{
    let s = es.skip(k);
    if k + 1 == es.len() {
        assert(es.skip(k + 1) =~= seq![]);
        assert(s.drop_last() =~= seq![]);
    } else {
        lemma_parts_total_skip(es.drop_last(), k);
        assert(es.drop_last().skip(k) =~= s.drop_last());
        assert(es.drop_last().skip(k + 1) =~= es.skip(k + 1).drop_last());
    }
}

/// A prefix of the children's sums is at most the whole.
proof fn lemma_children_sums_bounded(t: Seq<NodeView>, i: int, k: int)
    requires
        0 <= i < t.len(),
        0 <= k <= t[i].children.len(),
        t[i].kind == Kind::Dir,
    ensures
        children_lines(t, i, k) <= sub_lines(t, i),
        children_files(t, i, k) <= sub_files(t, i),
        children_bytes(t, i, k) <= sub_bytes(t, i),
{
    lemma_children_prefix_mono(t, i, k, t[i].children.len() as int);
}

proof fn lemma_children_prefix_mono(t: Seq<NodeView>, i: int, k: int, m: int)
    requires
        0 <= i < t.len(),
        0 <= k <= m <= t[i].children.len(),
    ensures
        children_lines(t, i, k) <= children_lines(t, i, m),
        children_files(t, i, k) <= children_files(t, i, m),
        children_bytes(t, i, k) <= children_bytes(t, i, m),
    decreases m - k,
{
    if k < m {
        lemma_children_prefix_mono(t, i, k, m - 1);
    }
}

pub struct Tree {
    pub nodes: Vec<Node>,
    /// Denominator of the heat ranks: one less than the number of ranked
    /// files, at least 1.
    pub heat_scale: usize,
    /// Path to node index, for every node.
    pub by_path: PathIndex,
}

impl View for Tree {
    type V = Seq<NodeView>;

    open spec fn view(&self) -> Seq<NodeView> {
        self.nodes@.map_values(|n: Node| n@)
    }
}

impl Node {
    fn new(name: String, path: String, parent: Option<usize>, depth: u32, ignored: bool) -> (res: Self)
        ensures
            res@ == fresh_node(name@, path@, parent, depth, ignored),
    {
        Node {
            name,
            path,
            parent,
            children: Vec::new(),
            kind: Kind::Dir,
            ignored,
            depth,
            lines: Vec::new(),
            bytes: 0,
            total_lines: 0,
            total_files: 0,
            commits: 0,
            last_change: 0,
            heat_rank: None,
            lit: true,
            on_path: true,
        }
    }

    pub open spec fn is_file_spec(&self) -> bool {
        self.kind == Kind::Text || self.kind == Kind::Binary
    }

    /// Text and binary files; folders and unread entries are not files.
    pub fn is_file(&self) -> (res: bool)
        ensures
            res == self.is_file_spec(),
    {
        match self.kind {
            Kind::Text | Kind::Binary => true,
            _ => false,
        }
    }
}

impl Tree {
    /// The structure, and the path index agreeing with the nodes.
    pub closed spec fn wf(&self) -> bool {
        &&& tree_wf(self@)
        &&& self.by_path.wf()
        &&& self.index_ok()
    }

    /// The path index maps exactly the node paths to their positions.
    #[verifier::opaque]
    pub closed spec fn index_ok(&self) -> bool {
        &&& forall|i: int|
            0 <= i < self.nodes@.len() ==> {
                &&& self.by_path@.contains_key(#[trigger] self.nodes@[i].path@)
                &&& self.by_path@[self.nodes@[i].path@] == i
            }
        &&& forall|k: Seq<char>|
            #[trigger] self.by_path@.contains_key(k) ==> {
                &&& self.by_path@[k] < self.nodes@.len()
                &&& self.nodes@[self.by_path@[k] as int].path@ == k
            }
    }

    /// A tree holding only its root folder.
    pub fn new(root_name: &str) -> (res: Self)
        ensures
            res.wf(),
            res@ == seq![fresh_node(root_name@, Seq::<char>::empty(), None, 0, false)],
            res.heat_scale == 1,
    {
        let root = Node::new(String::from_str(root_name), String::new(), None, 0, false);
        let mut by_path = PathIndex::new();
        by_path.insert(String::new(), 0);
        let mut nodes = Vec::new();
        nodes.push(root);
        let res = Tree { nodes, heat_scale: 1, by_path };
        assert(res@ =~= seq![fresh_node(root_name@, Seq::<char>::empty(), None, 0, false)]);
        proof {
            lemma_root_wf(fresh_node(root_name@, Seq::<char>::empty(), None, 0, false));
            assert(res.index_ok()) by {
                reveal(Tree::index_ok);
            }
        }
        res
    }

    /// The view holds the value of every node.
    pub proof fn lemma_view(&self)
        ensures
            self@.len() == self.nodes@.len(),
            forall|i: int| 0 <= i < self@.len() ==> self@[i] == (#[trigger] self.nodes@[i])@,
    {
    }

    /// A well formed tree has its root, the folder with the empty path, first.
    pub proof fn lemma_has_root(&self)
        requires
            self.wf(),
        ensures
            self@.len() >= 1,
            self@[0].path == Seq::<char>::empty(),
            self@[0].parent is None,
    {
    }

    /// True while nothing but the root is in the tree.
    pub fn is_empty(&self) -> (res: bool)
        ensures
            res == (self@.len() <= 1),
    {
        self.nodes.len() <= 1
    }

    /// The node with the given path.
    pub fn find(&self, path: &str) -> (res: Option<usize>)
        requires
            self.wf(),
        ensures
            res == (match path_index(self@, path@) {
                Some(i) => Some(i as usize),
                None => None,
            }),
            res matches Some(i) ==> i < self@.len() && self@[i as int].path == path@,
            res is None ==> forall|i: int| 0 <= i < self@.len() ==> self@[i].path != path@,
    {
        let res = self.by_path.get(path);
        proof {
            self.lemma_path_index(path@);
        }
        res
    }

    /// `path_index` agrees with the path index.
    proof fn lemma_path_index(&self, p: Seq<char>)
        requires
            self.wf(),
        ensures
            self.by_path@.contains_key(p) ==> path_index(self@, p) == Some(self.by_path@[p] as int),
            !self.by_path@.contains_key(p) ==> path_index(self@, p) is None,
    {
        let t = self@;
        reveal(Tree::index_ok);
        reveal(paths_unique);
        if self.by_path@.contains_key(p) {
            let i = self.by_path@[p] as int;
            assert(t[i].path == p);
            let c = choose|c: int| 0 <= c < t.len() && (#[trigger] t[c]).path == p;
            if c != i {
                if c < i {
                    assert(t[c].path != t[i].path);
                } else {
                    assert(t[i].path != t[c].path);
                }
            }
        } else {
            assert forall|i: int| 0 <= i < t.len() implies (#[trigger] t[i]).path != p by {
                assert(self.by_path@.contains_key(self.nodes@[i].path@));
            }
        }
    }

    /// Appends a new folder node under `parent`.
    fn add_node(&mut self, parent: usize, name: String, path: String) -> (idx: usize)
        requires
            old(self).wf(),
            parent < old(self)@.len(),
            path_index(old(self)@, path@) is None,
            path@ == join_path(old(self)@[parent as int].path, name@),
            old(self)@.len() < u32::MAX,
        ensures
            final(self).wf(),
            final(self)@ == add_child(old(self)@, parent as int, name@, path@),
            idx == old(self)@.len(),
            final(self).heat_scale == old(self).heat_scale,
    {
        let ghost t = self@;
        proof {
            reveal(depth_ok);
            assert(t[parent as int].depth <= parent);
            if exists|i: int| 0 <= i < t.len() && (#[trigger] t[i]).path == path@ {
                assert(path_index(t, path@) is Some);
            }
            self.lemma_path_index(path@);
            lemma_add_child_wf(t, parent as int, name@, path@);
        }
        let idx = self.nodes.len();
        let depth = self.nodes[parent].depth + 1;
        let ignored = self.nodes[parent].ignored;
        let node = Node::new(name, path.clone(), Some(parent), depth, ignored);
        self.nodes[parent].children.push(idx);
        self.nodes.push(node);
        self.by_path.insert(path, idx);
        proof {
            let u = add_child(t, parent as int, name@, path@);
            assert(self@ =~= u);
            reveal(Tree::index_ok);
            assert forall|i: int| 0 <= i < self.nodes@.len() implies {
                &&& self.by_path@.contains_key(#[trigger] self.nodes@[i].path@)
                &&& self.by_path@[self.nodes@[i].path@] == i
            } by {
                if i < idx {
                    assert(self.nodes@[i].path@ == t[i].path);
                    assert(t[i].path != path@);
                }
            }
        }
        idx
    }

    /// Writes a scanned entry into the node at `index`.
    fn fill(&mut self, index: usize, entry: Entry)
        requires
            old(self).wf(),
            index < old(self)@.len(),
        ensures
            final(self).wf(),
            final(self)@ == old(self)@.update(index as int, filled(old(self)@[index as int], entry@)),
            final(self).heat_scale == old(self).heat_scale,
    {
        let ghost t = self@;
        let ghost e = entry@;
        self.nodes[index].ignored = entry.ignored;
        match entry.kind {
            EntryKind::Text { bytes, lines } => {
                self.nodes[index].kind = Kind::Text;
                self.nodes[index].bytes = bytes;
                self.nodes[index].lines = lines;
            },
            EntryKind::Binary { bytes } => {
                self.nodes[index].kind = Kind::Binary;
                self.nodes[index].bytes = bytes;
            },
            EntryKind::Unread { dir } => {
                self.nodes[index].kind = Kind::Unread { dir, loading: false };
            },
        }
        proof {
            let u = t.update(index as int, filled(t[index as int], e));
            assert(self@ =~= u);
            assert forall|i: int| 0 <= i < t.len() implies same_shape(#[trigger] t[i], u[i]) by {}
            lemma_same_shape_wf(t, u);
            reveal(Tree::index_ok);
        }
    }

    /// After the last component was written into node `i`, the entry is
    /// found at its path.
    proof fn lemma_filled_found(&self, i: int, path: Seq<char>, pv: Seq<Seq<char>>, e: EntryView)
        requires
            self.wf(),
            0 <= i < self@.len(),
            self@[i].path == path,
            self@[i] == filled(self@[i], e),
            path == joined(pv, pv.len()),
            pv == split_chars(e.path, '/'),
        ensures
            !(e.path.len() > 0 && e.path[0] == '/') ==> (path_index(self@, e.path) matches Some(j) && carries(
                self@[j],
                e,
            )),
    {
        if !(e.path.len() > 0 && e.path[0] == '/') {
            lemma_joined_split(e.path);
            lemma_found_at(self@, i);
        }
    }

    /// Adds an entry, creating its parent folders on the way.
    ///
    /// The tree must stay below 2^32 - 1 nodes: a node's depth is kept in 32
    /// bits and is less than the number of nodes, so this keeps every depth
    /// (one more than its parent's) in range.
    pub fn insert(&mut self, entry: Entry)
        requires
            old(self).wf(),
            old(self)@.len() + split_chars(entry.path@, '/').len() < u32::MAX,
        ensures
            final(self).wf(),
            final(self)@ == insert_spec(old(self)@, entry@),
            old(self)@.len() <= final(self)@.len() <= old(self)@.len() + split_chars(entry.path@, '/').len(),
            !(entry.path@.len() > 0 && entry.path@[0] == '/') ==> (path_index(final(self)@, entry.path@) matches Some(
                i,
            ) && carries(final(self)@[i], entry@)),
            forall|i: int|
                0 <= i < old(self)@.len() ==> {
                    &&& (#[trigger] final(self)@[i]).path == old(self)@[i].path
                    &&& final(self)@[i].name == old(self)@[i].name
                    &&& final(self)@[i].parent == old(self)@[i].parent
                },
            forall|j: nat|
                1 <= j <= split_chars(entry.path@, '/').len() ==> #[trigger] has_path(
                    final(self)@,
                    joined(split_chars(entry.path@, '/'), j),
                ),
            final(self)@.len() == old(self)@.len() + absent_prefixes(
                old(self)@,
                split_chars(entry.path@, '/'),
                split_chars(entry.path@, '/').len(),
            ),
            final(self).heat_scale == old(self).heat_scale,
    {
        let ghost e = entry@;
        let ghost t0 = self@;
        let parts = split_string(entry.path.as_str(), '/');
        let ghost pv = parts@.map_values(|x: String| x@);
        let n = parts.len();
        let mut parent: usize = 0;
        let mut path = String::new();
        let mut have_path = false;
        let mut k: usize = 0;
        loop
            invariant
                self.wf(),
                0 <= k < n,
                n == pv.len(),
                pv == split_chars(e.path, '/'),
                pv == parts@.map_values(|x: String| x@),
                entry@ == e,
                parent < self@.len(),
                self@[parent as int].path == path@,
                have_path == (path@.len() > 0),
                path@ == joined(pv, k as nat),
                insert_spec(t0, e) == insert_from(self@, pv, k as nat, parent as int, path@, e),
                t0.len() <= self@.len() <= t0.len() + k,
                t0.len() + n < u32::MAX,
                t0 == old(self)@,
                t0.len() >= 1,
                forall|j: nat| 1 <= j <= k ==> #[trigger] has_path(self@, joined(pv, j)),
                self@.len() == t0.len() + absent_prefixes(t0, pv, k as nat),
                forall|i: int|
                    t0.len() <= i < self@.len() ==> exists|j: nat|
                        1 <= j <= k && (#[trigger] self@[i]).path == joined(pv, j),
                t0[0].path == Seq::<char>::empty(),
                forall|i: int| 0 <= i < t0.len() ==> (#[trigger] self@[i]).path == t0[i].path,
                self.heat_scale == old(self).heat_scale,
            decreases n - k,
        {
            proof {
                lemma_insert_keeps_nodes(t0, e);
            }
            let ghost before = path@;
            let ghost tk = self@;
            if have_path {
                crate::text::push_char(&mut path, '/');
            }
            path.append(parts[k].as_str());
            have_path = have_path || parts[k].as_str().unicode_len() > 0;
            proof {
                assert(parts@[k as int]@ == pv[k as int]);
                assert(path@ =~= join_path(before, pv[k as int]));
                assert(path@ == joined(pv, (k + 1) as nat));
                lemma_prefix_present(t0, tk, pv, k as nat);
            }
            let last = k + 1 == n;
            let found = self.by_path.get(path.as_str());
            proof {
                self.lemma_path_index(path@);
            }
            match found {
                Some(existing) => {
                    assert(path_index(tk, path@) == Some(existing as int));
                    assert(tk[existing as int].path == path@);
                    assert(has_path(tk, joined(pv, (k + 1) as nat)));
                    if last {
                        self.fill(existing, entry);
                        proof {
                            self.lemma_filled_found(existing as int, path@, pv, e);
                            lemma_prefixes_kept(tk, self@, pv, (k + 1) as nat);
                            assert(absent_prefixes(t0, pv, (k + 1) as nat) == absent_prefixes(t0, pv, k as nat));
                        }
                        assert(insert_from(tk, pv, k as nat, parent as int, before, e) == tk.update(
                            existing as int,
                            filled(tk[existing as int], e),
                        ));
                        return;
                    }
                    assert(insert_from(tk, pv, k as nat, parent as int, before, e) == insert_from(
                        tk,
                        pv,
                        (k + 1) as nat,
                        existing as int,
                        path@,
                        e,
                    ));
                    proof {
                        assert(absent_prefixes(t0, pv, (k + 1) as nat) == absent_prefixes(t0, pv, k as nat));
                        assert forall|i: int| t0.len() <= i < self@.len() implies exists|j: nat|
                            1 <= j <= k + 1 && (#[trigger] self@[i]).path == joined(pv, j) by {
                            let j = choose|j: nat| 1 <= j <= k && (#[trigger] self@[i]).path == joined(pv, j);
                        }
                    }
                    parent = existing;
                },
                None => {
                    let name = parts[k].clone();
                    let idx = self.add_node(parent, name, path.clone());
                    let ghost t2 = add_child(tk, parent as int, pv[k as int], path@);
                    assert(self@ == t2);
                    proof {
                        lemma_prefixes_kept(tk, t2, pv, k as nat);
                        assert(t2[idx as int].path == path@);
                        assert(has_path(t2, joined(pv, (k + 1) as nat)));
                        assert(!has_path(tk, joined(pv, (k + 1) as nat)));
                        assert(absent_prefixes(t0, pv, (k + 1) as nat) == absent_prefixes(t0, pv, k as nat) + 1);
                        assert forall|i: int| 0 <= i < t0.len() implies (#[trigger] t2[i]).path == t0[i].path by {
                            assert(tk[i].path == t0[i].path);
                        }
                        assert forall|i: int| t0.len() <= i < t2.len() implies exists|j: nat|
                            1 <= j <= k + 1 && (#[trigger] t2[i]).path == joined(pv, j) by {
                            if i < tk.len() {
                                assert(t2[i].path == tk[i].path);
                                let j = choose|j: nat| 1 <= j <= k && (#[trigger] tk[i]).path == joined(pv, j);
                                assert(t2[i].path == joined(pv, j));
                            } else {
                                assert(t2[i].path == joined(pv, (k + 1) as nat));
                            }
                        }
                    }
                    if last {
                        self.fill(idx, entry);
                        proof {
                            self.lemma_filled_found(idx as int, path@, pv, e);
                            lemma_prefixes_kept(t2, self@, pv, (k + 1) as nat);
                        }
                        assert(insert_from(tk, pv, k as nat, parent as int, before, e) == t2.update(
                            idx as int,
                            filled(t2[idx as int], e),
                        ));
                        return;
                    }
                    assert(insert_from(tk, pv, k as nat, parent as int, before, e) == insert_from(
                        t2,
                        pv,
                        (k + 1) as nat,
                        idx as int,
                        path@,
                        e,
                    ));
                    parent = idx;
                },
            }
            k = k + 1;
        }
    }

    /// Turns the unread node `index` into a real folder (or file) and puts
    /// in the entries read from it.
    pub fn graft(&mut self, index: usize, entries: Vec<Entry>)
        requires
            old(self).wf(),
            index < old(self)@.len(),
            old(self)@.len() + parts_total(entries@.map_values(|e: Entry| e@)) < u32::MAX,
        ensures
            final(self).wf(),
            final(self)@ == graft_spec(old(self)@, index as int, entries@.map_values(|e: Entry| e@)),
            final(self)@.len() >= old(self)@.len(),
            final(self).heat_scale == old(self).heat_scale,
    {
        let ghost t0 = self@;
        let ghost es = entries@.map_values(|e: Entry| e@);
        match self.nodes[index].kind {
            Kind::Unread { dir, .. } => {
                self.nodes[index].kind = if dir { Kind::Dir } else { Kind::Binary };
            },
            _ => {},
        }
        proof {
            let u = t0.update(index as int, opened(t0[index as int]));
            assert(self@ =~= u);
            assert forall|i: int| 0 <= i < t0.len() implies same_shape(#[trigger] t0[i], u[i]) by {}
            lemma_same_shape_wf(t0, u);
            reveal(Tree::index_ok);
        }
        self.insert_entries(entries);
    }

    /// Adds the entries in order, as `insert` does one by one.
    pub fn insert_entries(&mut self, entries: Vec<Entry>)
        requires
            old(self).wf(),
            old(self)@.len() + parts_total(entries@.map_values(|e: Entry| e@)) < u32::MAX,
        ensures
            final(self).wf(),
            final(self)@ == insert_all(old(self)@, entries@.map_values(|e: Entry| e@)),
            final(self)@.len() >= old(self)@.len(),
            final(self).heat_scale == old(self).heat_scale,
    {
        let ghost es = entries@.map_values(|e: Entry| e@);
        let ghost t1 = self@;
        let n = entries.len();
        // Reverse the entries, then take them back off the end in order.
        let mut entries = entries;
        let mut rev: Vec<Entry> = Vec::new();
        while entries.len() > 0
            invariant
                entries@.len() + rev@.len() == n,
                n == es.len(),
                forall|j: int| 0 <= j < entries@.len() ==> (#[trigger] entries@[j])@ == es[j],
                forall|j: int| 0 <= j < rev@.len() ==> (#[trigger] rev@[j])@ == es[n - 1 - j],
            decreases entries.len(),
        {
            let e = entries.pop().unwrap();
            rev.push(e);
        }
        let mut k: usize = 0;
        assert(es.take(0) =~= seq![]);
        assert(es.skip(0) =~= es);
        while k < n
            invariant
                self.wf(),
                k <= n,
                n == es.len(),
                rev@.len() == n - k,
                forall|j: int| 0 <= j < rev@.len() ==> (#[trigger] rev@[j])@ == es[n - 1 - j],
                self@ == insert_all(t1, es.take(k as int)),
                self@.len() >= t1.len(),
                self@.len() + parts_total(es.skip(k as int)) <= t1.len() + parts_total(es),
                t1.len() + parts_total(es) < u32::MAX,
                t1 == old(self)@,
                self.heat_scale == old(self).heat_scale,
            decreases n - k,
        {
            let entry = rev.pop().unwrap();
            proof {
                assert(entry@ == es[k as int]);
                lemma_parts_total_skip(es, k as int);
            }
            self.insert(entry);
            proof {
                assert(es.take(k + 1).drop_last() =~= es.take(k as int));
                assert(es.take(k + 1).last() == es[k as int]);
            }
            k = k + 1;
        }
        proof {
            assert(es.take(n as int) =~= es);
        }
    }

    /// Whether `insert_entries` can take these entries: the tree stays
    /// below 2^32 - 1 nodes even if every path component is new.
    pub fn fits_entries(&self, entries: &Vec<Entry>) -> (res: bool)
        ensures
            res == (self@.len() + parts_total(entries@.map_values(|e: Entry| e@)) < u32::MAX),
    {
        let ghost es = entries@.map_values(|e: Entry| e@);
        let limit: u64 = 0xffff_ffff;
        if self.nodes.len() as u64 >= limit {
            return false;
        }
        let mut total: u64 = self.nodes.len() as u64;
        let mut k: usize = 0;
        assert(es.take(0) =~= seq![]);
        while k < entries.len()
            invariant
                k <= entries@.len() == es.len(),
                es == entries@.map_values(|e: Entry| e@),
                total == self@.len() + parts_total(es.take(k as int)),
                total < limit,
                limit == u32::MAX,
            decreases entries.len() - k,
        {
            let parts = split_string(entries[k].path.as_str(), '/');
            proof {
                assert(es.take(k + 1).drop_last() =~= es.take(k as int));
                assert(es.take(k + 1).last() == es[k as int]);
                assert(parts@.len() == split_chars(es[k as int].path, '/').len());
            }
            if parts.len() as u64 >= limit - total {
                proof {
                    assert(parts_total(es.take(k + 1)) == parts_total(es.take(k as int)) + parts@.len());
                    lemma_parts_total_prefix(es, k + 1, es.len() as int);
                    assert(es.take(es.len() as int) =~= es);
                }
                return false;
            }
            total = total + parts.len() as u64;
            k = k + 1;
        }
        proof {
            assert(es.take(k as int) =~= es);
        }
        true
    }

    /// Recomputes the totals (lines, files, and folder sizes) bottom up.
    /// Returns false, leaving some totals stale, when a total does not fit
    /// in 64 bits.
    #[verifier::spinoff_prover]
    pub fn update_totals(&mut self) -> (res: bool)
        requires
            old(self).wf(),
        ensures
            final(self).wf(),
            final(self)@.len() == old(self)@.len(),
            res == totals_fit(old(self)@),
            res ==> forall|i: int| 0 <= i < old(self)@.len() ==> #[trigger] final(self)@[i] == with_totals(old(self)@, i),
            forall|i: int|
                0 <= i < old(self)@.len() ==> #[trigger] final(self)@[i] == old(self)@[i] || final(self)@[i]
                    == with_totals(old(self)@, i),
            final(self).heat_scale == old(self).heat_scale,
    {
        let ghost t = self@;
        let ghost bp = self.by_path;
        let n = self.nodes.len();
        let mut i = n;
        proof {
            reveal(children_ok);
        }
        while i > 0
            invariant
                self.by_path == bp,
                bp == old(self).by_path,
                old(self).wf(),
                t == old(self)@,
                i <= n == t.len() == self@.len(),
                tree_wf(t),
                forall|j: int| 0 <= j < i ==> #[trigger] self@[j] == t[j],
                forall|j: int| i <= j < n ==> #[trigger] self@[j] == with_totals(t, j),
                forall|j: int|
                    i <= j < n ==> #[trigger] sub_lines(t, j) <= u64::MAX && sub_files(t, j) <= u64::MAX
                        && sub_bytes(t, j) <= u64::MAX,
                self.heat_scale == old(self).heat_scale,
            decreases i,
        {
            i = i - 1;
            let ghost ti = t[i as int];
            assert(self@[i as int] == ti);
            let (lines, files, bytes): (u64, u64, u64) = match self.nodes[i].kind {
                Kind::Text => (self.nodes[i].lines.len() as u64, 1, self.nodes[i].bytes),
                Kind::Binary => (0, 1, self.nodes[i].bytes),
                Kind::Unread { .. } => (0, 0, self.nodes[i].bytes),
                Kind::Dir => {
                    assert forall|j: int| i < j < n implies #[trigger] sub_lines(t, j) <= u64::MAX && sub_files(t, j)
                        <= u64::MAX && sub_bytes(t, j) <= u64::MAX by {}
                    let mut lines: u64 = 0;
                    let mut files: u64 = 0;
                    let mut bytes: u64 = 0;
                    let m = self.nodes[i].children.len();
                    let mut k: usize = 0;
                    while k < m
                        invariant
                            k <= m == ti.children.len(),
                            i < n == t.len() == self@.len(),
                            self@[i as int] == ti,
                            ti == t[i as int],
                            tree_wf(t),
                            self.by_path == bp,
                            bp == old(self).by_path,
                            old(self).wf(),
                            t == old(self)@,
                            forall|j: int| 0 <= j <= i ==> #[trigger] self@[j] == t[j],
                            forall|j: int| i < j < n ==> #[trigger] self@[j] == with_totals(t, j),
                            forall|j: int|
                                i < j < n ==> #[trigger] sub_lines(t, j) <= u64::MAX && sub_files(t, j) <= u64::MAX
                                    && sub_bytes(t, j) <= u64::MAX,
                            lines == children_lines(t, i as int, k as int),
                            files == children_files(t, i as int, k as int),
                            bytes == children_bytes(t, i as int, k as int),
                            ti.kind == Kind::Dir,
                            self.heat_scale == old(self).heat_scale,
                        decreases m - k,
                    {
                        let c = self.nodes[i].children[k];
                        proof {
                            reveal(children_ok);
                            assert(ti.children[k as int] == c);
                            assert(i < c < n);
                            assert(self@[c as int] == with_totals(t, c as int));
                            assert(sub_lines(t, c as int) <= u64::MAX);
                        }
                        let sums = (
                            lines.checked_add(self.nodes[c].total_lines),
                            files.checked_add(self.nodes[c].total_files),
                            bytes.checked_add(self.nodes[c].bytes),
                        );
                        match sums {
                            (Some(l), Some(f), Some(b)) => {
                                lines = l;
                                files = f;
                                bytes = b;
                            },
                            _ => {
                                proof {
                                    lemma_children_sums_bounded(t, i as int, k as int + 1);
                                    assert(!(sub_lines(t, i as int) <= u64::MAX && sub_files(t, i as int)
                                        <= u64::MAX && sub_bytes(t, i as int) <= u64::MAX));
                                    assert(!totals_fit(t));
                                    assert forall|j: int| 0 <= j < t.len() implies same_shape(#[trigger] t[j], self@[j]) by {
                                        if j > i {
                                            assert(self@[j] == with_totals(t, j));
                                        }
                                    }
                                    self.lemma_reshaped(old(self));
                                    assert forall|j: int| 0 <= j < t.len() implies #[trigger] self@[j] == t[j]
                                        || self@[j] == with_totals(t, j) by {
                                        if j > i {
                                            assert(self@[j] == with_totals(t, j));
                                        } else {
                                            assert(self@[j] == t[j]);
                                        }
                                    }
                                }
                                return false;
                            },
                        }
                        k = k + 1;
                    }
                    (lines, files, bytes)
                },
            };
            proof {
                if ti.kind == Kind::Dir {
                    lemma_children_sums_bounded(t, i as int, ti.children.len() as int);
                }
                assert(lines == sub_lines(t, i as int));
                assert(files == sub_files(t, i as int));
                assert(ti.kind == Kind::Dir ==> bytes == sub_bytes(t, i as int));
            }
            let ghost before = self@;
            self.nodes[i].total_lines = lines;
            self.nodes[i].total_files = files;
            if self.nodes[i].kind == Kind::Dir {
                self.nodes[i].bytes = bytes;
            }
            proof {
                assert(self@[i as int] == with_totals(t, i as int));
                assert(self@ =~= before.update(i as int, with_totals(t, i as int)));
            }
        }
        proof {
            let u = self@;
            assert forall|j: int| 0 <= j < t.len() implies same_shape(#[trigger] t[j], u[j]) by {
                assert(u[j] == with_totals(t, j));
            }
            lemma_same_shape_wf(t, u);
            assert(tree_wf(self@));
            assert(self.by_path.wf());
            assert forall|j: int| 0 <= j < self.nodes@.len() implies self.nodes@[j].path@ == old(self).nodes@[j].path@ by {
                assert(self.nodes@[j]@ == u[j]);
                assert(old(self).nodes@[j]@ == t[j]);
            }
            assert(self.index_ok()) by {
                reveal(Tree::index_ok);
            }
            assert(totals_fit(t));
        }
        true
    }

    /// After changing what nodes hold but not where they are, the tree is still well formed.
    proof fn lemma_reshaped(&self, before: &Tree)
        requires
            before.wf(),
            self.by_path == before.by_path,
            self@.len() == before@.len(),
            forall|i: int| 0 <= i < before@.len() ==> same_shape(#[trigger] before@[i], self@[i]),
        ensures
            self.wf(),
    {
        lemma_same_shape_wf(before@, self@);
        assert forall|j: int| 0 <= j < self.nodes@.len() implies self.nodes@[j].path@
            == before.nodes@[j].path@ by {
            assert(same_shape(before@[j], self@[j]));
        }
        assert(self.index_ok()) by {
            reveal(Tree::index_ok);
        }
    }

    /// Copies git activity onto files and adds it up for folders.
    /// Returns false, leaving some nodes as they were, when a folder's
    /// commit count does not fit in 32 bits.
    pub fn apply_history(&mut self, history: &History) -> (res: bool)
        requires
            old(self).wf(),
            history.wf(),
        ensures
            final(self).wf(),
            final(self)@.len() == old(self)@.len(),
            res == commits_fit(old(self)@, history.files()),
            res ==> forall|i: int|
                0 <= i < old(self)@.len() ==> #[trigger] final(self)@[i] == with_history(
                    old(self)@,
                    history.files(),
                    i,
                ),
            forall|i: int|
                0 <= i < old(self)@.len() ==> #[trigger] final(self)@[i] == old(self)@[i] || final(self)@[i]
                    == with_history(old(self)@, history.files(), i),
            final(self).heat_scale == old(self).heat_scale,
    {
        let ghost t = self@;
        let ghost h = history.files();
        let ghost bp = self.by_path;
        let n = self.nodes.len();
        let mut i = n;
        while i > 0
            invariant
                self.by_path == bp,
                bp == old(self).by_path,
                old(self).wf(),
                t == old(self)@,
                h == history.files(),
                history.wf(),
                i <= n == t.len() == self@.len(),
                tree_wf(t),
                forall|j: int| i <= j < n ==> #[trigger] sub_commits(t, h, j) <= u32::MAX,
                forall|j: int| 0 <= j < i ==> #[trigger] self@[j] == t[j],
                forall|j: int| i <= j < n ==> #[trigger] self@[j] == with_history(t, h, j),
                self.heat_scale == old(self).heat_scale,
            decreases i,
        {
            i = i - 1;
            let ghost ti = t[i as int];
            assert(self@[i as int] == ti);
            let (own_commits, own_last) = match history.get(self.nodes[i].path.as_str()) {
                Some(a) => a,
                None => (0, 0),
            };
            assert(own_commits == hist_of(h, ti.path).0 && own_last == hist_of(h, ti.path).1);
            let mut commits: u32 = own_commits;
            let mut last: i64 = own_last;
            if self.nodes[i].kind == Kind::Dir {
                let mut sum: u32 = 0;
                let mut latest: i64 = i64::MIN;
                let m = self.nodes[i].children.len();
                let mut k: usize = 0;
                while k < m
                    invariant
                        k <= m == ti.children.len(),
                        i < n == t.len() == self@.len(),
                        self@[i as int] == ti,
                        ti == t[i as int],
                        tree_wf(t),
                        self.by_path == bp,
                        bp == old(self).by_path,
                        old(self).wf(),
                        t == old(self)@,
                        h == history.files(),
                        forall|j: int| i < j < n ==> #[trigger] sub_commits(t, h, j) <= u32::MAX,
                        forall|j: int| 0 <= j <= i ==> #[trigger] self@[j] == t[j],
                        forall|j: int| i < j < n ==> #[trigger] self@[j] == with_history(t, h, j),
                        self.heat_scale == old(self).heat_scale,
                        sum == children_commits(t, h, i as int, k as int),
                        latest == children_last(t, h, i as int, k as int),
                        own_commits == hist_of(h, ti.path).0,
                        ti.kind == Kind::Dir,
                    decreases m - k,
                {
                    let c = self.nodes[i].children[k];
                    proof {
                        reveal(children_ok);
                        assert(ti.children[k as int] == c);
                        assert(i < c < n);
                        assert(self@[c as int] == with_history(t, h, c as int));
                        lemma_children_commits_mono(t, h, i as int, k as int + 1, ti.children.len() as int);
                    }
                    sum = match sum.checked_add(self.nodes[c].commits) {
                        Some(v) => v,
                        None => {
                            proof {
                                self.lemma_history_overflow(old(self), t, h, i as int);
                            }
                            return false;
                        },
                    };
                    let cl = self.nodes[c].last_change;
                    latest = if latest >= cl { latest } else { cl };
                    k = k + 1;
                }
                commits = match commits.checked_add(sum) {
                    Some(v) => v,
                    None => {
                        proof {
                            self.lemma_history_overflow(old(self), t, h, i as int);
                        }
                        return false;
                    },
                };
                last = if last >= latest { last } else { latest };
            }
            proof {
                if ti.kind == Kind::Dir {
                    lemma_children_commits_mono(t, h, i as int, ti.children.len() as int, ti.children.len() as int);
                }
                assert(commits as int == sub_commits(t, h, i as int));
            }
            let ghost before = self@;
            self.nodes[i].commits = commits;
            self.nodes[i].last_change = last;
            proof {
                assert(self@[i as int] == with_history(t, h, i as int));
                assert(self@ =~= before.update(i as int, with_history(t, h, i as int)));
            }
        }
        proof {
            assert forall|j: int| 0 <= j < t.len() implies same_shape(#[trigger] old(self)@[j], self@[j]) by {
                assert(self@[j] == with_history(t, h, j));
            }
            self.lemma_reshaped(old(self));
        }
        true
    }

    /// When the commits of node `i` overflow, nothing has changed yet but the
    /// nodes after `i`, and the counts do not fit.
    proof fn lemma_history_overflow(&self, before: &Tree, t: Seq<NodeView>, h: Map<Seq<char>, (u32, i64)>, i: int)
        requires
            before.wf(),
            t == before@,
            self.by_path == before.by_path,
            0 <= i < t.len() == self@.len(),
            sub_commits(t, h, i) > u32::MAX,
            forall|j: int| 0 <= j <= i ==> #[trigger] self@[j] == t[j],
            forall|j: int| i < j < t.len() ==> #[trigger] self@[j] == with_history(t, h, j),
        ensures
            self.wf(),
            !commits_fit(t, h),
            forall|j: int| 0 <= j < t.len() ==> #[trigger] self@[j] == t[j] || self@[j] == with_history(t, h, j),
    {
        assert forall|j: int| 0 <= j < t.len() implies same_shape(#[trigger] t[j], self@[j]) by {
            if j > i {
                assert(self@[j] == with_history(t, h, j));
            }
        }
        self.lemma_reshaped(before);
        assert forall|j: int| 0 <= j < t.len() implies #[trigger] self@[j] == t[j] || self@[j] == with_history(t, h, j) by {
            if j > i {
                assert(self@[j] == with_history(t, h, j));
            } else {
                assert(self@[j] == t[j]);
            }
        }
    }

    /// Marks the matches of a search. Every space separated word must appear
    /// in the path (case-insensitive). Returns the matching nodes in tree
    /// order, leaving out those inside a matching folder.
    pub fn search(&mut self, query: &str) -> (res: Vec<usize>)
        requires
            old(self).wf(),
        ensures
            final(self).wf(),
            final(self)@.len() == old(self)@.len(),
            forall|i: int|
                0 <= i < old(self)@.len() ==> #[trigger] final(self)@[i] == searched(
                    old(self)@,
                    query_words(query@),
                    i,
                ),
            res@ == (if query_words(query@).len() == 0 {
                Seq::<usize>::empty()
            } else {
                match_list(old(self)@, query_words(query@), old(self)@.len() as int)
            }),
            final(self).heat_scale == old(self).heat_scale,
    {
        let ghost t = self@;
        let ghost bp = self.by_path;
        let words = lowercase_words(query);
        let ghost ws = query_words(query@);
        assert(words@.map_values(|w: String| w@) == ws);
        let n = self.nodes.len();
        let mut word_chars: Vec<Vec<char>> = Vec::new();
        let mut w: usize = 0;
        while w < words.len()
            invariant
                w <= words@.len() == ws.len(),
                words@.map_values(|x: String| x@) == ws,
                word_chars@.len() == w,
                forall|j: int| 0 <= j < w ==> (#[trigger] word_chars@[j])@ == ws[j],
            decreases words.len() - w,
        {
            let cs = chars_of(words[w].as_str());
            assert(words@[w as int]@ == ws[w as int]);
            word_chars.push(cs);
            w = w + 1;
        }
        if words.len() == 0 {
            let mut i: usize = 0;
            while i < n
                invariant
                    self.by_path == bp,
                    bp == old(self).by_path,
                    old(self).wf(),
                    t == old(self)@,
                    ws.len() == 0,
                    i <= n == t.len() == self@.len(),
                    forall|j: int| i <= j < n ==> #[trigger] self@[j] == t[j],
                    forall|j: int| 0 <= j < i ==> #[trigger] self@[j] == searched(t, ws, j),
                    self.heat_scale == old(self).heat_scale,
                decreases n - i,
            {
                let ghost before = self@;
                assert(before[i as int] == t[i as int]);
                self.nodes[i].lit = true;
                self.nodes[i].on_path = true;
                proof {
                    assert(self@ =~= before.update(i as int, searched(t, ws, i as int)));
                }
                i = i + 1;
            }
            proof {
                assert forall|j: int| 0 <= j < t.len() implies same_shape(#[trigger] old(self)@[j], self@[j]) by {
                    assert(self@[j] == searched(t, ws, j));
                }
                self.lemma_reshaped(old(self));
            }
            return Vec::new();
        }
        // Forward: a node is lit when it matches or its parent is lit.
        let mut hits: Vec<bool> = Vec::new();
        let mut i: usize = 0;
        while i < n
            invariant
                self.by_path == bp,
                bp == old(self).by_path,
                old(self).wf(),
                t == old(self)@,
                tree_wf(t),
                ws.len() > 0,
                word_chars@.len() == ws.len(),
                forall|j: int| 0 <= j < ws.len() ==> (#[trigger] word_chars@[j])@ == ws[j],
                i <= n == t.len() == self@.len(),
                hits@.len() == i,
                forall|j: int| 0 <= j < i ==> #[trigger] hits@[j] == node_hit(t, ws, j),
                forall|j: int| i <= j < n ==> #[trigger] self@[j] == t[j],
                forall|j: int|
                    0 <= j < i ==> #[trigger] self@[j] == (NodeView {
                        lit: lit_spec(t, ws, j),
                        on_path: lit_spec(t, ws, j),
                        ..t[j]
                    }),
                self.heat_scale == old(self).heat_scale,
            decreases n - i,
        {
            let path = to_lowercase(self.nodes[i].path.as_str());
            let pcs = chars_of(path.as_str());
            assert(self@[i as int] == t[i as int]);
            let mut all = i > 0;
            let mut w: usize = 0;
            while w < word_chars.len()
                invariant
                    w <= word_chars@.len() == ws.len(),
                    forall|j: int| 0 <= j < ws.len() ==> (#[trigger] word_chars@[j])@ == ws[j],
                    pcs@ == lowercase(t[i as int].path),
                    i < t.len(),
                    all == (i > 0 && forall|v: int| 0 <= v < w ==> contains_seq(lowercase(t[i as int].path), #[trigger] ws[v])),
                decreases word_chars.len() - w,
            {
                let found = contains_chars(&pcs, &word_chars[w]);
                assert(word_chars@[w as int]@ == ws[w as int]);
                all = all && found;
                proof {
                    if !found {
                        assert(!contains_seq(lowercase(t[i as int].path), ws[w as int]));
                    }
                }
                w = w + 1;
            }
            assert(all == node_hit(t, ws, i as int));
            let parent_is_lit = match self.nodes[i].parent {
                Some(p) => {
                    proof {
                        lemma_parent_before(t, i as int);
                        assert(self@[p as int].lit == lit_spec(t, ws, p as int));
                    }
                    self.nodes[p].lit
                },
                None => false,
            };
            assert(parent_is_lit == parent_lit(t, ws, i as int));
            let lit = all || parent_is_lit;
            let ghost before = self@;
            self.nodes[i].lit = lit;
            self.nodes[i].on_path = lit;
            hits.push(all);
            proof {
                assert(self@ =~= before.update(
                    i as int,
                    NodeView { lit: lit_spec(t, ws, i as int), on_path: lit_spec(t, ws, i as int), ..t[i as int] },
                ));
            }
            i = i + 1;
        }
        // Backward: a node is on the path when it is lit or a child is.
        let mut i = n;
        while i > 0
            invariant
                self.by_path == bp,
                bp == old(self).by_path,
                old(self).wf(),
                t == old(self)@,
                tree_wf(t),
                ws.len() > 0,
                i <= n == t.len() == self@.len(),
                forall|j: int|
                    0 <= j < i ==> #[trigger] self@[j] == (NodeView {
                        lit: lit_spec(t, ws, j),
                        on_path: lit_spec(t, ws, j),
                        ..t[j]
                    }),
                forall|j: int| i <= j < n ==> #[trigger] self@[j] == searched(t, ws, j),
                self.heat_scale == old(self).heat_scale,
            decreases i,
        {
            i = i - 1;
            let ghost ti = t[i as int];
            assert(self@[i as int].children == ti.children);
            let mut on = self.nodes[i].lit;
            let m = self.nodes[i].children.len();
            let mut k: usize = 0;
            while k < m
                invariant
                    k <= m == ti.children.len(),
                    i < n == t.len() == self@.len(),
                    ti == t[i as int],
                    self@[i as int].children == ti.children,
                    tree_wf(t),
                    ws.len() > 0,
                    forall|j: int| i < j < n ==> #[trigger] self@[j] == searched(t, ws, j),
                    on == (lit_spec(t, ws, i as int) || children_on_path(t, ws, i as int, k as int)),
                decreases m - k,
            {
                let c = self.nodes[i].children[k];
                proof {
                    reveal(children_ok);
                    assert(ti.children[k as int] == c);
                    assert(i < c < n);
                    assert(self@[c as int] == searched(t, ws, c as int));
                }
                on = on || self.nodes[c].on_path;
                k = k + 1;
            }
            let ghost before = self@;
            self.nodes[i].on_path = on;
            proof {
                assert(self@ =~= before.update(i as int, searched(t, ws, i as int)));
            }
        }
        // The matches, leaving out those inside a lit folder.
        let mut matches: Vec<usize> = Vec::new();
        let mut i: usize = 0;
        while i < n
            invariant
                i <= n == t.len() == self@.len(),
                hits@.len() == n,
                tree_wf(t),
                forall|j: int| 0 <= j < n ==> #[trigger] hits@[j] == node_hit(t, ws, j),
                forall|j: int| 0 <= j < n ==> #[trigger] self@[j] == searched(t, ws, j),
                ws.len() > 0,
                matches@ == match_list(t, ws, i as int),
            decreases n - i,
        {
            let redundant = match self.nodes[i].parent {
                Some(p) => {
                    proof {
                        assert(self@[i as int] == searched(t, ws, i as int));
                        lemma_parent_before(t, i as int);
                        assert(self@[p as int] == searched(t, ws, p as int));
                    }
                    self.nodes[p].lit
                },
                None => false,
            };
            assert(redundant == parent_lit(t, ws, i as int));
            if hits[i] && !redundant {
                matches.push(i);
            }
            i = i + 1;
        }
        proof {
            assert forall|j: int| 0 <= j < t.len() implies same_shape(#[trigger] old(self)@[j], self@[j]) by {
                assert(self@[j] == searched(t, ws, j));
            }
            self.lemma_reshaped(old(self));
        }
        matches
    }

    /// The top-level folder a node lives in (for coloring regions in 3D).
    pub fn top_level(&self, index: usize) -> (res: usize)
        requires
            self.wf(),
            index < self@.len(),
        ensures
            res as int == top_level_spec(self@, index as int),
    {
        let ghost t = self@;
        let mut at = index;
        loop
            invariant
                tree_wf(t),
                t == self@,
                at < t.len(),
                top_level_spec(t, at as int) == top_level_spec(t, index as int),
            decreases at,
        {
            proof {
                lemma_parent_before(t, at as int);
            }
            assert(self.nodes@[at as int]@ == t[at as int]);
            match self.nodes[at].parent {
                Some(parent) => {
                    if parent == 0 {
                        return at;
                    }
                    at = parent;
                },
                None => {
                    return at;
                },
            }
        }
    }

    /// Marks an unread node as being read and gives its path; `None` when
    /// it is not an unread node or is already being read.
    pub fn start_loading(&mut self, index: usize) -> (res: Option<String>)
        requires
            old(self).wf(),
            index < old(self)@.len(),
        ensures
            final(self).wf(),
            final(self).heat_scale == old(self).heat_scale,
            match old(self)@[index as int].kind {
                Kind::Unread { dir, loading: false } => {
                    &&& res matches Some(p) && p@ == old(self)@[index as int].path
                    &&& final(self)@ == old(self)@.update(
                        index as int,
                        NodeView { kind: Kind::Unread { dir, loading: true }, ..old(self)@[index as int] },
                    )
                },
                _ => res is None && final(self)@ == old(self)@,
            },
    {
        match self.nodes[index].kind {
            Kind::Unread { dir, loading: false } => {
                let ghost before = self@;
                self.nodes[index].kind = Kind::Unread { dir, loading: true };
                proof {
                    assert(self@ =~= before.update(
                        index as int,
                        NodeView { kind: Kind::Unread { dir, loading: true }, ..before[index as int] },
                    ));
                    assert forall|j: int| 0 <= j < before.len() implies same_shape(#[trigger] old(self)@[j], self@[j]) by {}
                    self.lemma_reshaped(old(self));
                }
                Some(self.nodes[index].path.clone())
            },
            _ => None,
        }
    }

    /// Ranks files by the chosen metric for the heatmap. Ranks instead of raw
    /// values spread the colors evenly.
    pub fn compute_heat(&mut self, mode: ColorMode)
        requires
            old(self).wf(),
        ensures
            final(self).wf(),
            final(self)@.len() == old(self)@.len(),
            forall|i: int| 0 <= i < old(self)@.len() ==> #[trigger] final(self)@[i] == heated(old(self)@, mode, i),
            final(self).heat_scale == heat_scale_after(old(self)@, mode, old(self).heat_scale),
    {
        let ghost t = self@;
        let ghost bp = self.by_path;
        let n = self.nodes.len();
        let mut values: Vec<i64> = Vec::new();
        let mut i: usize = 0;
        while i < n
            invariant
                i <= n == t.len() == self@.len(),
                t == self@,
                values@ == ranked_values(t, mode, i as int),
            decreases n - i,
        {
            assert(self.nodes@[i as int]@ == t[i as int]);
            let is_ranked = self.nodes[i].is_file() && self.nodes[i].commits > 0;
            if is_ranked {
                let v = if mode == ColorMode::Churn { self.nodes[i].commits as i64 } else { self.nodes[i].last_change };
                values.push(v);
            }
            i = i + 1;
        }
        let active = mode != ColorMode::FileType && values.len() > 0;
        let sorted = sort_values(values.as_slice());
        if active {
            self.heat_scale = if values.len() >= 2 { values.len() - 1 } else { 1 };
        }
        let ghost hs = self.heat_scale;
        let mut i: usize = 0;
        while i < n
            invariant
                self.by_path == bp,
                bp == old(self).by_path,
                old(self).wf(),
                t == old(self)@,
                i <= n == t.len() == self@.len(),
                values@ == ranked_values(t, mode, n as int),
                crate::sort::sorted(sorted@),
                forall|v: i64| #[trigger] count_below(sorted@, v) == count_below(values@, v),
                active == (mode != ColorMode::FileType && values@.len() > 0),
                forall|j: int| i <= j < n ==> #[trigger] self@[j] == t[j],
                forall|j: int| 0 <= j < i ==> #[trigger] self@[j] == heated(t, mode, j),
                self.heat_scale == hs,
            decreases n - i,
        {
            assert(self@[i as int] == t[i as int]);
            let is_ranked = self.nodes[i].is_file() && self.nodes[i].commits > 0;
            let rank = if mode != ColorMode::FileType && is_ranked {
                let v = if mode == ColorMode::Churn { self.nodes[i].commits as i64 } else { self.nodes[i].last_change };
                Some(rank_in(&sorted, v))
            } else {
                None
            };
            let ghost before = self@;
            self.nodes[i].heat_rank = rank;
            proof {
                assert(self@ =~= before.update(i as int, heated(t, mode, i as int)));
            }
            i = i + 1;
        }
        proof {
            assert forall|j: int| 0 <= j < t.len() implies same_shape(#[trigger] old(self)@[j], self@[j]) by {
                assert(self@[j] == heated(t, mode, j));
            }
            self.lemma_reshaped(old(self));
        }
    }
}

} // verus!
