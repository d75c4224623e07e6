//! A hash index from paths to positions, used wherever a path has to be
//! found again quickly (tree nodes, git history entries).

use vstd::prelude::*;
use crate::text::chars_of;

verus! {

/// Number of buckets of every index.
pub const BUCKETS: usize = 65536;

/// Hash of a path, one character at a time.
pub open spec fn key_hash(s: Seq<char>) -> u64
    decreases s.len(),
{
    if s.len() == 0 {
        5381u64
    } else {
        key_hash(s.drop_last()).wrapping_mul(31).wrapping_add(s.last() as u32 as u64)
    }
}

pub open spec fn bucket_of(s: Seq<char>) -> int {
    (key_hash(s) % (BUCKETS as u64)) as int
}

fn hash_chars(s: &str) -> (res: u64)
    ensures
        res == key_hash(s@),
{
    let cs = chars_of(s);
    let mut h: u64 = 5381;
    let mut i: usize = 0;
    while i < cs.len()
        invariant
            i <= cs@.len(),
            cs@ == s@,
            h == key_hash(cs@.take(i as int)),
        decreases cs.len() - i,
    {
        let c = cs[i];
        proof {
            assert(cs@.take(i + 1).drop_last() =~= cs@.take(i as int));
        }
        h = h.wrapping_mul(31).wrapping_add(c as u32 as u64);
        i = i + 1;
    }
    proof {
        assert(cs@.take(cs@.len() as int) =~= cs@);
    }
    h
}

fn bucket_index(s: &str) -> (res: usize)
    ensures
        res as int == bucket_of(s@),
        res < BUCKETS,
{
    let h = hash_chars(s);
    (h % (BUCKETS as u64)) as usize
}

/// Map from paths to positions.
pub struct PathIndex {
    buckets: Vec<Vec<(String, usize)>>,
    contents: Ghost<Map<Seq<char>, usize>>,
}

impl View for PathIndex {
    type V = Map<Seq<char>, usize>;

    closed spec fn view(&self) -> Map<Seq<char>, usize> {
        self.contents@
    }
}

impl PathIndex {
    /// The buckets hold exactly the entries of the map, each in the bucket of its hash.
    pub closed spec fn wf(&self) -> bool {
        &&& self.buckets@.len() == BUCKETS
        &&& forall|b: int, j: int|
            #![trigger self.buckets@[b]@[j]]
            0 <= b < BUCKETS && 0 <= j < self.buckets@[b]@.len() ==> {
                &&& bucket_of(self.buckets@[b]@[j].0@) == b
                &&& self.contents@.contains_key(self.buckets@[b]@[j].0@)
                &&& self.contents@[self.buckets@[b]@[j].0@] == self.buckets@[b]@[j].1
            }
        &&& forall|k: Seq<char>|
            #[trigger] self.contents@.contains_key(k) ==> exists|j: int|
                0 <= j < self.buckets@[bucket_of(k)]@.len() && (#[trigger] self.buckets@[bucket_of(
                    k,
                )]@[j]).0@ == k
    }

    /// An empty index.
    pub fn new() -> (res: Self)
        ensures
            res.wf(),
            res@ == Map::<Seq<char>, usize>::empty(),
    {
        let mut buckets: Vec<Vec<(String, usize)>> = Vec::new();
        while buckets.len() < BUCKETS
            invariant
                buckets@.len() <= BUCKETS,
                forall|b: int| 0 <= b < buckets@.len() ==> (#[trigger] buckets@[b])@.len() == 0,
            decreases BUCKETS - buckets.len(),
        {
            buckets.push(Vec::new());
        }
        PathIndex { buckets, contents: Ghost(Map::empty()) }
    }

    /// Position stored for `key`, if any.
    pub fn get(&self, key: &str) -> (res: Option<usize>)
        requires
            self.wf(),
        ensures
            res == (if self@.contains_key(key@) {
                Some(self@[key@])
            } else {
                None
            }),
    {
        let b = bucket_index(key);
        let wanted = String::from_str(key);
        let bucket = &self.buckets[b];
        let mut j: usize = 0;
        while j < bucket.len()
            invariant
                self.wf(),
                b as int == bucket_of(key@),
                b < BUCKETS,
                bucket == &self.buckets@[b as int],
                j <= bucket@.len(),
                wanted@ == key@,
                forall|i: int| 0 <= i < j ==> (#[trigger] bucket@[i]).0@ != key@,
            decreases bucket.len() - j,
        {
            let entry = &bucket[j];
            if entry.0 == wanted {
                assert(self.buckets@[b as int]@[j as int] == bucket@[j as int]);
                return Some(entry.1);
            }
            j = j + 1;
        }
        proof {
            if self@.contains_key(key@) {
                let i = choose|i: int|
                    0 <= i < self.buckets@[bucket_of(key@)]@.len() && (#[trigger] self.buckets@[bucket_of(
                        key@,
                    )]@[i]).0@ == key@;
                assert(bucket@[i].0@ == key@);
            }
        }
        None
    }

    /// Records `value` for a key the index does not hold yet.
    pub fn insert(&mut self, key: String, value: usize)
        requires
            old(self).wf(),
            !old(self)@.contains_key(key@),
        ensures
            final(self).wf(),
            final(self)@ == old(self)@.insert(key@, value),
    {
        let b = bucket_index(key.as_str());
        let ghost k = key@;
        let ghost old_buckets = self.buckets@;
        self.buckets[b].push((key, value));
        proof {
            self.contents@ = self.contents@.insert(k, value);
            assert forall|bb: int, j: int|
                #![trigger self.buckets@[bb]@[j]]
                0 <= bb < BUCKETS && 0 <= j < self.buckets@[bb]@.len() implies {
                    &&& bucket_of(self.buckets@[bb]@[j].0@) == bb
                    &&& self.contents@.contains_key(self.buckets@[bb]@[j].0@)
                    &&& self.contents@[self.buckets@[bb]@[j].0@] == self.buckets@[bb]@[j].1
                } by {
                if bb != b as int || j < old_buckets[bb]@.len() {
                    assert(self.buckets@[bb]@[j] == old_buckets[bb]@[j]);
                    assert(old_buckets[bb]@[j].0@ != k);
                }
            }
            assert forall|kk: Seq<char>|
                #[trigger] self.contents@.contains_key(kk) implies exists|j: int|
                    0 <= j < self.buckets@[bucket_of(kk)]@.len() && (#[trigger] self.buckets@[bucket_of(
                        kk,
                    )]@[j]).0@ == kk by {
                if kk == k {
                    let j = old_buckets[b as int]@.len() as int;
                    assert(self.buckets@[bucket_of(kk)]@[j].0@ == kk);
                } else {
                    let j = choose|j: int|
                        0 <= j < old_buckets[bucket_of(kk)]@.len() && (#[trigger] old_buckets[bucket_of(
                            kk,
                        )]@[j]).0@ == kk;
                    assert(self.buckets@[bucket_of(kk)]@[j] == old_buckets[bucket_of(kk)]@[j]);
                }
            }
        }
    }
}

} // verus!
