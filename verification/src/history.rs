//! Git activity per file, for the heatmap: how many commits touched a file
//! and when it last changed, read from the output of one `git log` call.

use vstd::prelude::*;
use crate::index::PathIndex;
use crate::scan::{lossy_string, utf8_lossy};
use crate::text::{chars_of, lemma_split_chars_nonempty, lemma_split_front, lemma_split_no_sep, lemma_split_prefix, parse_i64, parse_i64_spec, split_chars, string_of, trim_bounds, trim_white};

verus! {

/// Only look at this many recent commits, so huge histories stay fast.
pub const MAX_COMMITS: usize = 20_000;

/// Activity with counts as numbers.
pub type Counts = Map<Seq<char>, (int, i64)>;

/// The activity map with its counts as numbers.
pub open spec fn as_counts(f: Map<Seq<char>, (u32, i64)>) -> Counts {
    f.map_values(|v: (u32, i64)| (v.0 as int, v.1))
}

/// One more commit touching `p` at `time`: the count goes up, the last change
/// becomes the later one.
pub open spec fn record_spec(m: Counts, p: Seq<char>, time: i64) -> Counts {
    if m.contains_key(p) {
        m.insert(p, (m[p].0 + 1, if m[p].1 >= time {
            m[p].1
        } else {
            time
        }))
    } else {
        m.insert(p, (1, time))
    }
}

/// Records every non-blank line (trimmed) as a path touched at `time`.
pub open spec fn record_lines(m: Counts, ls: Seq<Seq<char>>, time: i64) -> Counts
    decreases ls.len(),
{
    if ls.len() == 0 {
        m
    } else {
        let prev = record_lines(m, ls.drop_last(), time);
        let p = trim_white(ls.last());
        if p.len() > 0 {
            record_spec(prev, p, time)
        } else {
            prev
        }
    }
}

/// One commit of the log: its first line is the commit time, the other lines
/// are the paths it touched. Blank commits and commits whose time does not
/// parse are skipped.
pub open spec fn commit_step(state: (Counts, nat), c: Seq<char>) -> (Counts, nat) {
    if trim_white(c).len() == 0 {
        state
    } else {
        let ls = split_chars(c, '\n');
        match parse_i64_spec(trim_white(ls[0])) {
            None => state,
            Some(time) => (record_lines(state.0, ls.skip(1), time), state.1 + 1),
        }
    }
}

/// The activity and number of commits of a list of commits.
pub open spec fn log_fold(cs: Seq<Seq<char>>) -> (Counts, nat)
    decreases cs.len(),
{
    if cs.len() == 0 {
        (Map::empty(), 0)
    } else {
        commit_step(log_fold(cs.drop_last()), cs.last())
    }
}

/// What `git log --name-only --format=%x00%ct` output says: commits are
/// separated by NUL characters.
pub open spec fn log_spec(text: Seq<char>) -> (Counts, nat) {
    log_fold(split_chars(text, '\u{0}'))
}

/// The counts fit in 32 bits.
pub open spec fn counts_fit(m: Counts) -> bool {
    forall|p: Seq<char>| #[trigger] m.contains_key(p) ==> m[p].0 <= u32::MAX
}

/// `b` has every path of `a`, with at least its count.
pub open spec fn grows(a: Counts, b: Counts) -> bool {
    forall|p: Seq<char>| #[trigger] a.contains_key(p) ==> b.contains_key(p) && b[p].0 >= a[p].0
}

proof fn lemma_record_lines_grows(m: Counts, ls: Seq<Seq<char>>, j: int, time: i64)
    requires
        0 <= j <= ls.len(),
    ensures
        grows(record_lines(m, ls.take(j), time), record_lines(m, ls, time)),
    decreases ls.len(),
{
    if j < ls.len() {
        let d = ls.drop_last();
        assert(d.take(j) =~= ls.take(j));
        lemma_record_lines_grows(m, d, j, time);
    } else {
        assert(ls.take(j) =~= ls);
    }
}

proof fn lemma_commit_step_grows(state: (Counts, nat), c: Seq<char>)
    ensures
        grows(state.0, commit_step(state, c).0),
        commit_step(state, c).1 <= state.1 + 1,
{
    let ls = split_chars(c, '\n');
    if trim_white(c).len() > 0 {
        match parse_i64_spec(trim_white(ls[0])) {
            None => {},
            Some(time) => {
                assert(ls.skip(1).take(0) =~= seq![]);
                lemma_record_lines_grows(state.0, ls.skip(1), 0, time);
            },
        }
    }
}

proof fn lemma_log_fold_grows(cs: Seq<Seq<char>>, k: int)
    requires
        0 <= k <= cs.len(),
    ensures
        grows(log_fold(cs.take(k)).0, log_fold(cs).0),
        log_fold(cs).1 <= log_fold(cs.take(k)).1 + (cs.len() - k),
    decreases cs.len(),
{
    if k < cs.len() {
        let d = cs.drop_last();
        assert(d.take(k) =~= cs.take(k));
        lemma_log_fold_grows(d, k);
        lemma_commit_step_grows(log_fold(d), cs.last());
    } else {
        assert(cs.take(k) =~= cs);
    }
}

/// The characters in all the pieces together.
pub open spec fn total_len(ls: Seq<Seq<char>>) -> nat
    decreases ls.len(),
{
    if ls.len() == 0 {
        0
    } else {
        total_len(ls.drop_last()) + ls.last().len()
    }
}

/// The count of `p` in `m`, zero when it is not there.
pub open spec fn count_of(m: Counts, p: Seq<char>) -> int {
    if m.contains_key(p) {
        m[p].0
    } else {
        0
    }
}

proof fn lemma_total_len_add(a: Seq<Seq<char>>, b: Seq<Seq<char>>)
    ensures
        total_len(a + b) == total_len(a) + total_len(b),
    decreases b.len(),
{
    if b.len() > 0 {
        lemma_total_len_add(a, b.drop_last());
        assert((a + b).drop_last() =~= a + b.drop_last());
    } else {
        assert(a + b =~= a);
    }
}

/// The pieces between separators hold no more characters than the text.
proof fn lemma_split_total_len(s: Seq<char>, sep: char)
    ensures
        total_len(split_chars(s, sep)) <= s.len(),
    decreases s.len(),
{
    if s.len() > 0 {
        lemma_split_total_len(s.drop_last(), sep);
        let prev = split_chars(s.drop_last(), sep);
        lemma_split_chars_nonempty(s.drop_last(), sep);
        if s.last() == sep {
            let q = prev.push(seq![]);
            assert(q.drop_last() =~= prev);
            assert(total_len(q) == total_len(prev) + q.last().len());
        } else {
            let q = prev.update(prev.len() - 1, prev.last().push(s.last()));
            assert(q.drop_last() =~= prev.drop_last());
            assert(q.last() == prev.last().push(s.last()));
            assert(total_len(q) == total_len(q.drop_last()) + q.last().len());
            assert(total_len(prev) == total_len(prev.drop_last()) + prev.last().len());
        }
        assert(split_chars(s, sep) == (if s.last() == sep {
            prev.push(seq![])
        } else {
            prev.update(prev.len() - 1, prev.last().push(s.last()))
        }));
    } else {
        let q: Seq<Seq<char>> = seq![seq![]];
        assert(q.drop_last() =~= Seq::<Seq<char>>::empty());
        assert(total_len(Seq::<Seq<char>>::empty()) == 0);
        assert(q.last().len() == 0);
        assert(total_len(q) == 0);
    }
}

/// A blank line stays blank when trimmed.
proof fn lemma_trim_empty(x: Seq<char>)
    requires
        x.len() == 0,
    ensures
        trim_white(x).len() == 0,
{
}

proof fn lemma_record_lines_bounded(m: Counts, ls: Seq<Seq<char>>, time: i64, p: Seq<char>)
    ensures
        count_of(record_lines(m, ls, time), p) <= count_of(m, p) + total_len(ls),
    decreases ls.len(),
{
    if ls.len() > 0 {
        lemma_record_lines_bounded(m, ls.drop_last(), time, p);
        if ls.last().len() == 0 {
            lemma_trim_empty(ls.last());
        }
    }
}

proof fn lemma_commit_step_bounded(state: (Counts, nat), c: Seq<char>, p: Seq<char>)
    ensures
        count_of(commit_step(state, c).0, p) <= count_of(state.0, p) + c.len(),
{
    let ls = split_chars(c, '\n');
    if trim_white(c).len() > 0 {
        match parse_i64_spec(trim_white(ls[0])) {
            None => {},
            Some(time) => {
                lemma_record_lines_bounded(state.0, ls.skip(1), time, p);
                lemma_split_chars_nonempty(c, '\n');
                assert(ls =~= seq![ls[0]] + ls.skip(1));
                lemma_total_len_add(seq![ls[0]], ls.skip(1));
                assert(seq![ls[0]].drop_last() =~= Seq::<Seq<char>>::empty());
                lemma_split_total_len(c, '\n');
            },
        }
    }
}

proof fn lemma_log_fold_bounded(cs: Seq<Seq<char>>, p: Seq<char>)
    ensures
        count_of(log_fold(cs).0, p) <= total_len(cs),
    decreases cs.len(),
{
    if cs.len() > 0 {
        lemma_log_fold_bounded(cs.drop_last(), p);
        lemma_commit_step_bounded(log_fold(cs.drop_last()), cs.last(), p);
    }
}

/// No path is counted more often than the log has characters, so the
/// counts of a log shorter than 2^32 characters fit in 32 bits.
pub proof fn lemma_log_counts_bounded(text: Seq<char>)
    ensures
        forall|p: Seq<char>| #[trigger] log_spec(text).0.contains_key(p) ==> log_spec(text).0[p].0 <= text.len(),
        text.len() <= u32::MAX ==> counts_fit(log_spec(text).0),
{
    assert forall|p: Seq<char>| #[trigger] log_spec(text).0.contains_key(p) implies log_spec(text).0[p].0
        <= text.len() by {
        lemma_log_fold_bounded(split_chars(text, '\u{0}'), p);
        lemma_split_total_len(text, '\u{0}');
    }
}

/// Activity of every path that appears in the history.
pub struct History {
    /// Path (relative to the mapped folder) to its position in `activity`.
    pub index: PathIndex,
    /// The paths, in the order they were first seen.
    pub paths: Vec<String>,
    /// (commit count, last change unix time) of each path.
    pub activity: Vec<(u32, i64)>,
    pub commits_read: usize,
}

impl History {
    /// The index and the two lists describe the same paths.
    pub open spec fn wf(&self) -> bool {
        &&& self.index.wf()
        &&& self.paths@.len() == self.activity@.len()
        &&& forall|j: int|
            0 <= j < self.paths@.len() ==> {
                &&& self.index@.contains_key(#[trigger] self.paths@[j]@)
                &&& self.index@[self.paths@[j]@] == j
            }
        &&& forall|k: Seq<char>|
            #[trigger] self.index@.contains_key(k) ==> {
                &&& self.index@[k] < self.paths@.len()
                &&& self.paths@[self.index@[k] as int]@ == k
            }
    }

    /// Activity by path.
    pub open spec fn files(&self) -> Map<Seq<char>, (u32, i64)> {
        Map::new(
            |k: Seq<char>| self.index@.contains_key(k),
            |k: Seq<char>| self.activity@[self.index@[k] as int],
        )
    }

    /// A history with no commits.
    pub fn new() -> (res: Self)
        ensures
            res.wf(),
            res.files() == Map::<Seq<char>, (u32, i64)>::empty(),
            res.commits_read == 0,
    {
        let res = History { index: PathIndex::new(), paths: Vec::new(), activity: Vec::new(), commits_read: 0 };
        assert(res.files() =~= Map::<Seq<char>, (u32, i64)>::empty());
        res
    }

    /// Activity of `path`, if git touched it.
    pub fn get(&self, path: &str) -> (res: Option<(u32, i64)>)
        requires
            self.wf(),
        ensures
            res == (if self.files().contains_key(path@) {
                Some(self.files()[path@])
            } else {
                None
            }),
    {
        match self.index.get(path) {
            Some(j) => Some(self.activity[j]),
            None => None,
        }
    }

    /// Number of paths with activity.
    pub fn len(&self) -> (res: usize)
        requires
            self.wf(),
        ensures
            res == self.files().dom().len(),
    {
        proof {
            self.lemma_dom_len();
        }
        self.paths.len()
    }

    proof fn lemma_dom_len(&self)
        requires
            self.wf(),
        ensures
            self.files().dom().len() == self.paths@.len(),
            self.files().dom().finite(),
    {
        let f = |j: int| self.paths@[j]@;
        let s = Set::new(|j: int| 0 <= j < self.paths@.len());
        assert forall|k: Seq<char>| self.files().dom().contains(k) implies s.map(f).contains(k) by {
            let j = self.index@[k] as int;
            assert(s.contains(j) && f(j) == k);
        }
        assert forall|k: Seq<char>| s.map(f).contains(k) implies self.files().dom().contains(k) by {
            let j = choose|j: int| s.contains(j) && f(j) == k;
            assert(self.index@.contains_key(self.paths@[j]@));
        }
        assert(self.files().dom() =~= s.map(f));
        vstd::set_lib::lemma_int_range(0, self.paths@.len() as int);
        assert(s =~= vstd::set_lib::set_int_range(0, self.paths@.len() as int));
        assert forall|a: int, b: int| s.contains(a) && s.contains(b) && f(a) == f(b) implies a == b by {
            assert(self.index@[self.paths@[a]@] == a);
            assert(self.index@[self.paths@[b]@] == b);
        }
        vstd::set_lib::lemma_map_size(s, s.map(f), f);
    }

    /// Counts one more commit touching `path` at `time`.
    pub fn record(&mut self, path: String, time: i64)
        requires
            old(self).wf(),
            old(self).files().contains_key(path@) ==> old(self).files()[path@].0 < u32::MAX,
        ensures
            final(self).wf(),
            final(self).commits_read == old(self).commits_read,
            final(self).files() == old(self).files().insert(
                path@,
                if old(self).files().contains_key(path@) {
                    let (c, t) = old(self).files()[path@];
                    ((c + 1) as u32, if t >= time {
                        t
                    } else {
                        time
                    })
                } else {
                    (1u32, time)
                },
            ),
    {
        let ghost f0 = self.files();
        match self.index.get(path.as_str()) {
            Some(j) => {
                let (c, t) = self.activity[j];
                let last = if t >= time { t } else { time };
                self.activity.set(j, (c + 1, last));
                proof {
                    assert(self.files() =~= f0.insert(path@, ((c + 1) as u32, last)));
                }
            },
            None => {
                let j = self.paths.len();
                self.index.insert(path.clone(), j);
                self.paths.push(path);
                self.activity.push((1, time));
                proof {
                    assert forall|k: Seq<char>| #[trigger] self.index@.contains_key(k) implies {
                        &&& self.index@[k] < self.paths@.len()
                        &&& self.paths@[self.index@[k] as int]@ == k
                    } by {
                        if k != self.paths@[j as int]@ {
                            assert(old(self).index@.contains_key(k));
                        }
                    }
                    assert(self.files() =~= f0.insert(self.paths@[j as int]@, (1u32, time)));
                }
            },
        }
    }

    /// Adds the commit written in `cs[lo..hi]`.
    fn apply_commit(&mut self, cs: &Vec<char>, lo: usize, hi: usize)
        requires
            old(self).wf(),
            lo <= hi <= cs@.len(),
            old(self).commits_read < usize::MAX,
            counts_fit(
                commit_step(
                    (as_counts(old(self).files()), old(self).commits_read as nat),
                    cs@.subrange(lo as int, hi as int),
                ).0,
            ),
        ensures
            final(self).wf(),
            (as_counts(final(self).files()), final(self).commits_read as nat) == commit_step(
                (as_counts(old(self).files()), old(self).commits_read as nat),
                cs@.subrange(lo as int, hi as int),
            ),
    {
        let ghost c = cs@.subrange(lo as int, hi as int);
        let ghost st = (as_counts(self.files()), self.commits_read as nat);
        let (a, b) = trim_bounds(cs, lo, hi);
        if a == b {
            return;
        }
        // the first line holds the commit time
        let mut e = lo;
        while e < hi && cs[e] != '\n'
            invariant
                lo <= e <= hi <= cs@.len(),
                forall|i: int| lo <= i < e ==> cs@[i] != '\n',
            decreases hi - e,
        {
            e = e + 1;
        }
        let ghost ls = split_chars(c, '\n');
        let ghost rest: Seq<Seq<char>> = if e < hi {
            split_chars(cs@.subrange(e + 1, hi as int), '\n')
        } else {
            seq![]
        };
        proof {
            if e < hi {
                lemma_split_front(c, '\n', e - lo);
                assert(c.take(e - lo) =~= cs@.subrange(lo as int, e as int));
                assert(c.skip(e - lo + 1) =~= cs@.subrange(e + 1, hi as int));
            } else {
                lemma_split_no_sep(c, '\n');
                assert(c =~= cs@.subrange(lo as int, e as int));
            }
            assert(ls[0] == cs@.subrange(lo as int, e as int));
            assert(ls.skip(1) =~= rest);
        }
        let (a0, b0) = trim_bounds(cs, lo, e);
        let time = match parse_i64(cs, a0, b0) {
            None => {
                return;
            },
            Some(t) => t,
        };
        self.commits_read = self.commits_read + 1;
        if e == hi {
            proof {
                assert(record_lines(st.0, rest, time) == st.0);
            }
            return;
        }
        // the other lines are the paths it touched
        let ghost target = record_lines(st.0, rest, time);
        let ghost body = cs@.subrange(e + 1, hi as int);
        let ghost mut done: Seq<Seq<char>> = seq![];
        let mut start = e + 1;
        let mut i = e + 1;
        assert(body.take(0) =~= seq![]);
        assert(cs@.subrange(start as int, i as int) =~= seq![]);
        while i < hi
            invariant
                e + 1 <= start <= i <= hi <= cs@.len(),
                body == cs@.subrange(e + 1, hi as int),
                split_chars(body.take(i - e - 1), '\n') == done.push(cs@.subrange(start as int, i as int)),
                self.wf(),
                as_counts(self.files()) == record_lines(st.0, done, time),
                self.commits_read as nat == st.1 + 1,
                rest == split_chars(body, '\n'),
                target == record_lines(st.0, rest, time),
                counts_fit(target),
            decreases hi - i,
        {
            assert(body.take(i - e).drop_last() =~= body.take(i - e - 1));
            assert(body.take(i - e).last() == cs@[i as int]);
            if cs[i] == '\n' {
                let ghost piece = cs@.subrange(start as int, i as int);
                proof {
                    lemma_split_prefix(body, '\n', i - e - 1);
                    assert(rest.take(done.len() + 1int) == done.push(piece));
                    assert(rest.take(done.len() + 1int).take(done.len() as int) =~= rest.take(done.len() as int));
                    assert(done.push(piece).take(done.len() as int) =~= done);
                    assert(rest.take(done.len() + 1int)[done.len() as int] == rest[done.len() as int]);
                }
                self.record_line(cs, start, i, time, Ghost(done), Ghost(rest), Ghost(st.0));
                proof {
                    done = done.push(piece);
                    assert(cs@.subrange(i + 1, i + 1) =~= seq![]);
                }
                start = i + 1;
            } else {
                proof {
                    assert(cs@.subrange(start as int, i + 1) =~= cs@.subrange(start as int, i as int).push(cs@[i as int]));
                }
            }
            i = i + 1;
        }
        proof {
            assert(body.take(hi - e - 1) =~= body);
            assert(rest.take(done.len() as int) =~= done);
        }
        self.record_line(cs, start, hi, time, Ghost(done), Ghost(rest), Ghost(st.0));
        proof {
            assert(done.push(cs@.subrange(start as int, hi as int)) == rest);
        }
    }

    /// Records the line `cs[lo..hi]`, the line after `done` among all `lines`.
    fn record_line(
        &mut self,
        cs: &Vec<char>,
        lo: usize,
        hi: usize,
        time: i64,
        Ghost(done): Ghost<Seq<Seq<char>>>,
        Ghost(lines): Ghost<Seq<Seq<char>>>,
        Ghost(m0): Ghost<Counts>,
    )
        requires
            old(self).wf(),
            lo <= hi <= cs@.len(),
            as_counts(old(self).files()) == record_lines(m0, done, time),
            done.len() < lines.len(),
            lines.take(done.len() as int) == done,
            lines[done.len() as int] == cs@.subrange(lo as int, hi as int),
            counts_fit(record_lines(m0, lines, time)),
        ensures
            final(self).wf(),
            as_counts(final(self).files()) == record_lines(m0, done.push(cs@.subrange(lo as int, hi as int)), time),
            final(self).commits_read == old(self).commits_read,
    {
        let ghost line = cs@.subrange(lo as int, hi as int);
        let ghost next = done.push(line);
        proof {
            assert(next.drop_last() =~= done);
            assert(lines.take(done.len() + 1int) =~= next);
            lemma_record_lines_grows(m0, lines, done.len() + 1int, time);
        }
        let (a, b) = trim_bounds(cs, lo, hi);
        if a == b {
            return;
        }
        let path = string_of(cs, a, b);
        let ghost f0 = self.files();
        proof {
            let p = path@;
            let after = record_lines(m0, next, time);
            assert(after == record_spec(as_counts(f0), p, time));
            assert(after.contains_key(p));
            assert(record_lines(m0, lines, time).contains_key(p));
            if f0.contains_key(p) {
                assert(as_counts(f0)[p].0 == f0[p].0 as int);
            }
        }
        self.record(path, time);
        proof {
            assert(as_counts(self.files()) =~= record_lines(m0, next, time));
        }
    }
}


/// Reads the output of `git log --name-only --no-renames --format=%x00%ct`:
/// per path, how many commits touched it and when it last changed.
pub fn parse_log(text: &str) -> (res: History)
    requires
        text@.len() < usize::MAX,
        counts_fit(log_spec(text@).0),
    ensures
        res.wf(),
        as_counts(res.files()) == log_spec(text@).0,
        res.commits_read as nat == log_spec(text@).1,
{
    let cs = chars_of(text);
    let n = cs.len();
    let mut history = History::new();
    let ghost pieces = split_chars(cs@, '\u{0}');
    let ghost mut done: Seq<Seq<char>> = seq![];
    let mut start: usize = 0;
    let mut i: usize = 0;
    assert(cs@.take(0) =~= seq![]);
    assert(cs@.subrange(0, 0) =~= seq![]);
    assert(as_counts(history.files()) =~= Map::empty());
    while i < n
        invariant
            0 <= start <= i <= n == cs@.len(),
            cs@ == text@,
            pieces == split_chars(cs@, '\u{0}'),
            split_chars(cs@.take(i as int), '\u{0}') == done.push(cs@.subrange(start as int, i as int)),
            history.wf(),
            (as_counts(history.files()), history.commits_read as nat) == log_fold(done),
            history.commits_read <= done.len(),
            done.len() <= i,
            counts_fit(log_fold(pieces).0),
        decreases n - i,
    {
        assert(cs@.take(i + 1).drop_last() =~= cs@.take(i as int));
        assert(cs@.take(i + 1).last() == cs@[i as int]);
        if cs[i] == '\u{0}' {
            let ghost piece = cs@.subrange(start as int, i as int);
            let ghost next = done.push(piece);
            proof {
                assert(next.drop_last() =~= done);
                lemma_split_prefix(cs@, '\u{0}', i as int);
                lemma_log_fold_grows(pieces, next.len() as int);
                assert(pieces.take(next.len() as int) == next);
            }
            history.apply_commit(&cs, start, i);
            proof {
                done = next;
                assert(cs@.subrange(i + 1, i + 1) =~= seq![]);
                lemma_commit_step_grows(log_fold(done.drop_last()), piece);
            }
            start = i + 1;
        } else {
            proof {
                assert(cs@.subrange(start as int, i + 1) =~= cs@.subrange(start as int, i as int).push(cs@[i as int]));
            }
        }
        i = i + 1;
    }
    let ghost last = cs@.subrange(start as int, n as int);
    proof {
        assert(cs@.take(n as int) =~= cs@);
        assert(done.push(last) == pieces);
        assert(pieces.drop_last() =~= done);
        assert(pieces.take(pieces.len() as int) =~= pieces);
    }
    history.apply_commit(&cs, start, n);
    history
}

/// Reads the raw output of `git log --name-only --no-renames
/// --format=%x00%ct`, decoded as `String::from_utf8_lossy` decodes it: per
/// path, how many commits touched it and when it last changed.
pub fn parse_log_output(out: &[u8]) -> (res: History)
    requires
        out@.len() < u32::MAX,
    ensures
        res.wf(),
        as_counts(res.files()) == log_spec(utf8_lossy(out@)).0,
        res.commits_read as nat == log_spec(utf8_lossy(out@)).1,
{
    let text = lossy_string(out);
    proof {
        lemma_log_counts_bounded(text@);
    }
    parse_log(text.as_str())
}

} // verus!
