//! Sorting numbers and counting how many are below a value, which ranking
//! files for the heatmap needs, and putting names in order, which walking a
//! folder needs.

use vstd::prelude::*;
use crate::text::chars_of;

verus! {

/// How many of the values are strictly below `v`.
pub open spec fn count_below(s: Seq<i64>, v: i64) -> nat
    decreases s.len(),
{
    if s.len() == 0 {
        0
    } else {
        count_below(s.drop_last(), v) + if s.last() < v {
            1nat
        } else {
            0nat
        }
    }
}

pub open spec fn sorted(s: Seq<i64>) -> bool {
    forall|i: int, j: int| 0 <= i <= j < s.len() ==> s[i] <= s[j]
}

pub proof fn lemma_count_below_add(a: Seq<i64>, b: Seq<i64>, v: i64)
    ensures
        count_below(a + b, v) == count_below(a, v) + count_below(b, v),
    decreases b.len(),
{
    if b.len() > 0 {
        lemma_count_below_add(a, b.drop_last(), v);
        assert((a + b).drop_last() =~= a + b.drop_last());
    } else {
        assert(a + b =~= a);
    }
}

/// Counting below a larger bound counts at least as many, and strictly more
/// when the smaller bound is itself one of the values.
pub proof fn lemma_count_below_mono(s: Seq<i64>, x: i64, y: i64)
    ensures
        x <= y ==> count_below(s, x) <= count_below(s, y),
        x < y && s.contains(x) ==> count_below(s, x) < count_below(s, y),
    decreases s.len(),
{
    if s.len() > 0 {
        lemma_count_below_mono(s.drop_last(), x, y);
        if x < y && s.contains(x) && s.last() != x {
            let w = choose|w: int| 0 <= w < s.len() && s[w] == x;
            assert(s.drop_last()[w] == x);
        }
    }
}

/// A value of the sequence has fewer values below it than there are values.
pub proof fn lemma_count_below_lt_len(s: Seq<i64>, x: i64)
    requires
        s.contains(x),
    ensures
        count_below(s, x) < s.len(),
    decreases s.len(),
{
    lemma_count_below_le_len(s.drop_last(), x);
    if s.last() != x {
        let w = choose|w: int| 0 <= w < s.len() && s[w] == x;
        assert(s.drop_last()[w] == x);
        lemma_count_below_lt_len(s.drop_last(), x);
    }
}

proof fn lemma_count_below_le_len(s: Seq<i64>, x: i64)
    ensures
        count_below(s, x) <= s.len(),
    decreases s.len(),
{
    if s.len() > 0 {
        lemma_count_below_le_len(s.drop_last(), x);
    }
}

/// In a sorted sequence, the values below `v` are exactly those before the
/// first one that is not.
pub proof fn lemma_count_below_split(s: Seq<i64>, v: i64, k: int)
    requires
        0 <= k <= s.len(),
        forall|i: int| 0 <= i < k ==> s[i] < v,
        forall|i: int| k <= i < s.len() ==> s[i] >= v,
    ensures
        count_below(s, v) == k,
    decreases s.len(),
{
    if s.len() > 0 {
        if k == s.len() {
            lemma_count_below_split(s.drop_last(), v, k - 1);
        } else {
            lemma_count_below_split(s.drop_last(), v, k);
        }
    }
}

fn merge(a: &Vec<i64>, b: &Vec<i64>) -> (res: Vec<i64>)
    requires
        sorted(a@),
        sorted(b@),
        a@.len() + b@.len() <= usize::MAX,
    ensures
        sorted(res@),
        res@.len() == a@.len() + b@.len(),
        forall|v: i64| #[trigger] count_below(res@, v) == count_below(a@, v) + count_below(b@, v),
{
    let mut out: Vec<i64> = Vec::new();
    let mut i: usize = 0;
    let mut j: usize = 0;
    assert(a@.take(0) =~= seq![]);
    assert(b@.take(0) =~= seq![]);
    while i < a.len() || j < b.len()
        invariant
            i <= a@.len(),
            j <= b@.len(),
            sorted(a@),
            sorted(b@),
            a@.len() + b@.len() <= usize::MAX,
            out@.len() == i + j,
            sorted(out@),
            out@.len() > 0 && i < a@.len() ==> out@.last() <= a@[i as int],
            out@.len() > 0 && j < b@.len() ==> out@.last() <= b@[j as int],
            forall|v: i64|
                #[trigger] count_below(out@, v) == count_below(a@.take(i as int), v) + count_below(
                    b@.take(j as int),
                    v,
                ),
        decreases a@.len() + b@.len() - i - j,
    {
        let ghost prev = out@;
        let take_a = j >= b.len() || (i < a.len() && a[i] <= b[j]);
        if take_a {
            let x = a[i];
            out.push(x);
            proof {
                assert(a@.take(i + 1).drop_last() =~= a@.take(i as int));
                assert forall|v: i64| #[trigger] count_below(out@, v) == count_below(a@.take(i + 1), v) + count_below(b@.take(j as int), v) by {
                    assert(out@.drop_last() =~= prev);
                    assert(out@.last() == x);
                    assert(a@.take(i + 1).last() == x);
                    assert(count_below(prev, v) == count_below(a@.take(i as int), v) + count_below(b@.take(j as int), v));
                }
            }
            i = i + 1;
        } else {
            let x = b[j];
            out.push(x);
            proof {
                assert(b@.take(j + 1).drop_last() =~= b@.take(j as int));
                assert forall|v: i64| #[trigger] count_below(out@, v) == count_below(a@.take(i as int), v) + count_below(b@.take(j + 1), v) by {
                    assert(out@.drop_last() =~= prev);
                    assert(out@.last() == x);
                    assert(b@.take(j + 1).last() == x);
                    assert(count_below(prev, v) == count_below(a@.take(i as int), v) + count_below(b@.take(j as int), v));
                }
            }
            j = j + 1;
        }
    }
    proof {
        assert(a@.take(a@.len() as int) =~= a@);
        assert(b@.take(b@.len() as int) =~= b@);
    }
    out
}

/// The values in ascending order.
pub fn sort_values(s: &[i64]) -> (res: Vec<i64>)
    ensures
        sorted(res@),
        res@.len() == s@.len(),
        forall|v: i64| #[trigger] count_below(res@, v) == count_below(s@, v),
    decreases s@.len(),
{
    let n = s.len();
    if n <= 1 {
        let out = vstd::slice::slice_to_vec(s);
        return out;
    }
    let mid = n / 2;
    let left = sort_values(&s[0..mid]);
    let right = sort_values(&s[mid..n]);
    let out = merge(&left, &right);
    proof {
        assert forall|v: i64| #[trigger] count_below(out@, v) == count_below(s@, v) by {
            assert(s@ =~= s@.subrange(0, mid as int) + s@.subrange(mid as int, n as int));
            lemma_count_below_add(s@.subrange(0, mid as int), s@.subrange(mid as int, n as int), v);
        }
    }
    out
}

/// How many of the sorted values are strictly below `v` (binary search).
pub fn rank_in(s: &Vec<i64>, v: i64) -> (res: usize)
    requires
        sorted(s@),
    ensures
        res == count_below(s@, v),
{
    let mut lo: usize = 0;
    let mut hi: usize = s.len();
    while lo < hi
        invariant
            lo <= hi <= s@.len(),
            sorted(s@),
            forall|i: int| 0 <= i < lo ==> s@[i] < v,
            forall|i: int| hi <= i < s@.len() ==> s@[i] >= v,
        decreases hi - lo,
    {
        let mid = lo + (hi - lo) / 2;
        if s[mid] < v {
            lo = mid + 1;
        } else {
            hi = mid;
        }
    }
    proof {
        lemma_count_below_split(s@, v, lo as int);
    }
    lo
}

/// `a` comes strictly before `b`: the first character where they differ is
/// smaller in `a`, or `a` is a proper prefix of `b`. This is the order of
/// `str`, whose UTF-8 bytes compare as their characters do.
pub open spec fn chars_before(a: Seq<char>, b: Seq<char>) -> bool
    decreases a.len(),
{
    if b.len() == 0 {
        false
    } else if a.len() == 0 {
        true
    } else if a[0] != b[0] {
        a[0] < b[0]
    } else {
        chars_before(a.drop_first(), b.drop_first())
    }
}

proof fn lemma_before_transitive(a: Seq<char>, b: Seq<char>, c: Seq<char>)
    requires
        chars_before(a, b),
        chars_before(b, c),
    ensures
        chars_before(a, c),
    decreases a.len(),
{
    if a.len() > 0 && b.len() > 0 && c.len() > 0 && a[0] == b[0] && b[0] == c[0] {
        lemma_before_transitive(a.drop_first(), b.drop_first(), c.drop_first());
    }
}

/// Of two different sequences one comes before the other, and never both.
proof fn lemma_before_total(a: Seq<char>, b: Seq<char>)
    ensures
        a != b ==> chars_before(a, b) || chars_before(b, a),
        !(chars_before(a, b) && chars_before(b, a)),
    decreases a.len(),
{
    if a.len() > 0 && b.len() > 0 {
        if a[0] == b[0] {
            lemma_before_total(a.drop_first(), b.drop_first());
            if a.drop_first() == b.drop_first() {
                assert(a =~= seq![a[0]] + a.drop_first());
                assert(b =~= seq![b[0]] + b.drop_first());
            }
        }
    } else if a.len() == 0 && b.len() == 0 {
        assert(a =~= b);
    }
}

/// Whether `a` comes strictly before `b`.
pub fn chars_less(a: &Vec<char>, b: &Vec<char>) -> (res: bool)
    ensures
        res == chars_before(a@, b@),
{
    let mut i: usize = 0;
    assert(a@.skip(0) =~= a@);
    assert(b@.skip(0) =~= b@);
    while i < a.len() && i < b.len()
        invariant
            i <= a@.len(),
            i <= b@.len(),
            chars_before(a@, b@) == chars_before(a@.skip(i as int), b@.skip(i as int)),
        decreases a.len() - i,
    {
        assert(a@.skip(i as int)[0] == a@[i as int]);
        assert(b@.skip(i as int)[0] == b@[i as int]);
        if a[i] != b[i] {
            return a[i] < b[i];
        }
        assert(a@.skip(i as int).drop_first() =~= a@.skip(i + 1));
        assert(b@.skip(i as int).drop_first() =~= b@.skip(i + 1));
        i = i + 1;
    }
    i < b.len()
}

/// Position `i` comes before position `j` when the names are put in order,
/// equal names keeping their places.
pub open spec fn name_before(names: Seq<Seq<char>>, i: int, j: int) -> bool {
    chars_before(names[i], names[j]) || (names[i] == names[j] && i < j)
}

/// The names as character sequences.
pub open spec fn name_views(names: Seq<String>) -> Seq<Seq<char>> {
    names.map_values(|s: String| s@)
}

/// Putting `k` at `pos` keeps the positions in order, when everything before
/// `pos` is not after `k`'s name, `k` comes before the position at `pos`, and
/// `k` is larger than every position already there.
proof fn lemma_insert_in_order(v: Seq<Seq<char>>, o: Seq<usize>, pos: int, k: usize)
    requires
        0 <= pos <= o.len(),
        k < v.len(),
        forall|j: int| 0 <= j < o.len() ==> #[trigger] o[j] < k,
        forall|a: int, b: int| 0 <= a < b < o.len() ==> name_before(v, #[trigger] o[a] as int, #[trigger] o[b] as int),
        forall|j: int| 0 <= j < pos ==> !chars_before(v[k as int], v[#[trigger] o[j] as int]),
        pos < o.len() ==> chars_before(v[k as int], v[o[pos] as int]),
        forall|j: int| 0 <= j < o.len() ==> #[trigger] o[j] < v.len(),
    ensures
        ({
            let w = o.insert(pos, k);
            forall|a: int, b: int| 0 <= a < b < w.len() ==> name_before(v, #[trigger] w[a] as int, #[trigger] w[b] as int)
        }),
{
    let w = o.insert(pos, k);
    assert forall|a: int, b: int| 0 <= a < b < w.len() implies name_before(v, #[trigger] w[a] as int, #[trigger] w[b] as int) by {
        if b < pos {
            assert(w[a] == o[a] && w[b] == o[b]);
        } else if b == pos {
            assert(w[a] == o[a] && w[b] == k);
            lemma_before_total(v[o[a] as int], v[k as int]);
        } else if a < pos {
            assert(w[a] == o[a] && w[b] == o[b - 1]);
        } else if a == pos {
            assert(w[a] == k && w[b] == o[b - 1]);
            if b - 1 > pos {
                assert(name_before(v, o[pos] as int, o[b - 1] as int));
                if chars_before(v[o[pos] as int], v[o[b - 1] as int]) {
                    lemma_before_transitive(v[k as int], v[o[pos] as int], v[o[b - 1] as int]);
                }
            }
        } else {
            assert(w[a] == o[a - 1] && w[b] == o[b - 1]);
        }
    }
}

/// The order in which to take the names: positions sorted by name, equal
/// names in the order given (the order of a stable sort).
pub fn name_order(names: &Vec<String>) -> (res: Vec<usize>)
    ensures
        res@.len() == names@.len(),
        forall|i: usize| i < names@.len() ==> #[trigger] res@.contains(i),
        forall|a: int, b: int|
            0 <= a < b < res@.len() ==> name_before(name_views(names@), #[trigger] res@[a] as int, #[trigger] res@[b] as int),
{
    let ghost v = name_views(names@);
    let n = names.len();
    let mut keys: Vec<Vec<char>> = Vec::new();
    let mut k: usize = 0;
    while k < n
        invariant
            k <= n == names@.len() == v.len(),
            v == name_views(names@),
            keys@.len() == k,
            forall|i: int| 0 <= i < k ==> (#[trigger] keys@[i])@ == v[i],
        decreases n - k,
    {
        keys.push(chars_of(names[k].as_str()));
        k = k + 1;
    }
    let mut order: Vec<usize> = Vec::new();
    k = 0;
    while k < n
        invariant
            k <= n == names@.len() == v.len() == keys@.len(),
            forall|i: int| 0 <= i < n ==> (#[trigger] keys@[i])@ == v[i],
            order@.len() == k,
            forall|j: int| 0 <= j < order@.len() ==> #[trigger] order@[j] < k,
            forall|i: usize| i < k ==> #[trigger] order@.contains(i),
            forall|a: int, b: int|
                0 <= a < b < order@.len() ==> name_before(v, #[trigger] order@[a] as int, #[trigger] order@[b] as int),
        decreases n - k,
    {
        let mut pos: usize = 0;
        let mut found = false;
        while pos < order.len() && !found
            invariant
                pos <= order@.len() == k,
                k < n == keys@.len() == v.len(),
                forall|i: int| 0 <= i < n ==> (#[trigger] keys@[i])@ == v[i],
                forall|j: int| 0 <= j < order@.len() ==> #[trigger] order@[j] < k,
                forall|j: int| 0 <= j < pos ==> !chars_before(v[k as int], v[#[trigger] order@[j] as int]),
                found ==> pos < order@.len() && chars_before(v[k as int], v[order@[pos as int] as int]),
            decreases order@.len() - pos + (if found { 0int } else { 1int }),
        {
            if chars_less(&keys[k], &keys[order[pos]]) {
                found = true;
            } else {
                pos = pos + 1;
            }
        }
        let ghost o = order@;
        proof {
            lemma_insert_in_order(v, o, pos as int, k);
        }
        order.insert(pos, k);
        proof {
            assert(order@ == o.insert(pos as int, k as usize));
            assert forall|i: usize| i < k + 1 implies #[trigger] order@.contains(i) by {
                if i == k {
                    assert(order@[pos as int] == k);
                } else {
                    assert(o.contains(i));
                    let j = choose|j: int| 0 <= j < o.len() && o[j] == i;
                    if j < pos {
                        assert(order@[j] == i);
                    } else {
                        assert(order@[j + 1] == i);
                    }
                }
            }
        }
        k = k + 1;
    }
    order
}

} // verus!
