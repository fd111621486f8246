//! Recently decompressed clusters.

use std::collections::VecDeque;

use vstd::prelude::*;

use crate::qcow;

verus! {

/// How many clusters of that size are kept: as many as fit the bound on memory, and at least one.
pub open spec fn capacity_for(cluster_size: u64) -> int {
    let n = qcow::DECOMPRESSED_CLUSTER_CACHE_BYTES as int / cluster_size as int;
    if n < 1 {
        1
    } else {
        n
    }
}

/// How many clusters of that size are kept.
pub fn decompressed_cache_capacity(cluster_size: u64) -> (r: usize)
    requires
        cluster_size > 0,
    ensures
        r == capacity_for(cluster_size),
        r >= 1,
{
    proof {
        vstd::arithmetic::div_mod::lemma_div_nonincreasing(0x20_0000, cluster_size as int);
    }
    let n: u64 = qcow::DECOMPRESSED_CLUSTER_CACHE_BYTES / cluster_size;
    if n < 1 {
        1
    } else {
        n as usize
    }
}

/// Decompressed clusters by their L2 entry, the most recently used first.
#[derive(Debug)]
pub struct ClusterCache {
    pub entries: VecDeque<(u64, Vec<u8>)>,
    pub capacity: usize,
}

/// The position of the cluster of an L2 entry.
pub open spec fn position(s: Seq<(u64, Vec<u8>)>, key: u64) -> Option<int> {
    if exists|i: int| key_at(s, i, key) {
        Some(choose|i: int| key_at(s, i, key))
    } else {
        None
    }
}

/// The cluster at position `i` is that of the L2 entry `key`.
pub open spec fn key_at(s: Seq<(u64, Vec<u8>)>, i: int, key: u64) -> bool {
    0 <= i < s.len() && s[i].0 == key
}

/// No two clusters have the same L2 entry.
pub open spec fn keys_differ(s: Seq<(u64, Vec<u8>)>) -> bool {
    forall|i: int, j: int| #![trigger s[i], s[j]] 0 <= i < j < s.len() ==> s[i].0 != s[j].0
}

/// The clusters after one of them, at `i`, was used.
pub open spec fn used(s: Seq<(u64, Vec<u8>)>, i: int) -> Seq<(u64, Vec<u8>)> {
    seq![s[i]] + s.remove(i)
}

impl ClusterCache {
    /// The clusters are few enough and differ.
    pub open spec fn wf(&self) -> bool {
        &&& self.capacity >= 1
        &&& self.entries@.len() <= self.capacity
        &&& keys_differ(self.entries@)
    }

    /// The cluster of an L2 entry is kept.
    pub open spec fn has(&self, key: u64) -> bool {
        position(self.entries@, key) is Some
    }

    /// An empty cache for clusters of that size.
    pub fn new(cluster_size: u64) -> (r: ClusterCache)
        requires
            cluster_size > 0,
        ensures
            r.wf(),
            r.entries@ == Seq::<(u64, Vec<u8>)>::empty(),
            r.capacity == capacity_for(cluster_size),
    {
        ClusterCache {
            entries: VecDeque::new(),
            capacity: decompressed_cache_capacity(cluster_size),
        }
    }

    /// The position of the cluster of an L2 entry.
    fn find(&self, key: u64) -> (r: Option<usize>)
        requires
            self.wf(),
        ensures
            match position(self.entries@, key) {
                Some(i) => r is Some && r->0 == i && key_at(self.entries@, i, key),
                None => r is None,
            },
    {
        let mut i: usize = 0;
        while i < self.entries.len()
            invariant
                i <= self.entries@.len(),
                self.wf(),
                forall|j: int| 0 <= j < i ==> !key_at(self.entries@, j, key),
            decreases self.entries@.len() - i,
        {
            if self.entries[i].0 == key {
                proof {
                    assert(key_at(self.entries@, i as int, key));
                    let p = position(self.entries@, key)->0;
                    if p < i {
                        assert(!key_at(self.entries@, p, key));
                    } else if p > i {
                        assert(self.entries@[i as int].0 != self.entries@[p].0);
                    }
                }
                return Some(i);
            }
            i = i + 1;
        }
        None
    }

    /// Whether the cluster of an L2 entry is kept.
    pub fn contains(&self, key: u64) -> (r: bool)
        requires
            self.wf(),
        ensures
            r == self.has(key),
    {
        self.find(key).is_some()
    }

    /// Puts a cluster at the front. One that is kept already is used, and what came is dropped; for
    /// another, the least recently used ones make room.
    pub fn insert_decompressed_cluster(&mut self, key: u64, data: Vec<u8>)
        requires
            old(self).wf(),
        ensures
            final(self).wf(),
            final(self).capacity == old(self).capacity,
            final(self).entries@ == (match position(old(self).entries@, key) {
                Some(i) => used(old(self).entries@, i),
                None => {
                    let n = if old(self).entries@.len() >= old(self).capacity {
                        old(self).capacity - 1
                    } else {
                        old(self).entries@.len() as int
                    };
                    seq![(key, data)] + old(self).entries@.take(n)
                },
            }),
            final(self).entries@ == inserted(
                old(self).entries@,
                old(self).capacity as int,
                key,
                data,
            ),
    {
        let ghost before = self.entries@;
        if let Some(i) = self.find(key) {
            if let Some(hit) = self.entries.remove(i) {
                self.entries.push_front(hit);
            }
            proof {
                assert(self.entries@ =~= used(before, i as int));
            }
            return;
        }
        while self.entries.len() >= self.capacity
            invariant
                self.capacity == old(self).capacity,
                self.capacity >= 1,
                before == old(self).entries@,
                self.entries@.len() <= before.len(),
                before.len() <= self.capacity,
                self.entries@ == before.take(self.entries@.len() as int),
                self.entries@.len() < before.len() ==> self.entries@.len() == self.capacity - 1,
            decreases self.entries@.len(),
        {
            let gone = self.entries.pop_back();
            assert(self.entries@ =~= before.take(self.entries@.len() as int));
        }
        let ghost kept = self.entries@;
        self.entries.push_front((key, data));
        proof {
            assert forall|i: int, j: int|
                #![trigger self.entries@[i], self.entries@[j]]
                0 <= i < j < self.entries@.len() implies self.entries@[i].0 != self.entries@[j].0 by {
                assert(self.entries@[j] == before[j - 1]);
                if i == 0 {
                    assert(!key_at(before, j - 1, key));
                } else {
                    assert(self.entries@[i] == before[i - 1]);
                }
            }
        }
    }

    /// Uses the cluster of an L2 entry, if it is kept. It is then at the front.
    pub fn ensure_decompressed_cluster(&mut self, key: u64) -> (r: bool)
        requires
            old(self).wf(),
        ensures
            final(self).wf(),
            final(self).capacity == old(self).capacity,
            match position(old(self).entries@, key) {
                Some(i) => r && final(self).entries@ == used(old(self).entries@, i),
                None => !r && final(self).entries@ == old(self).entries@,
            },
    {
        if self.contains(key) {
            self.insert_decompressed_cluster(key, Vec::new());
            true
        } else {
            false
        }
    }

    /// The cluster at the front.
    pub fn front(&self) -> (r: Option<&Vec<u8>>)
        ensures
            match r {
                Some(v) => self.entries@.len() > 0 && *v == self.entries@[0].1,
                None => self.entries@.len() == 0,
            },
    {
        if self.entries.len() == 0 {
            None
        } else {
            Some(&self.entries[0].1)
        }
    }

    /// Forgets the cluster of an L2 entry that does not stand for it any more.
    pub fn forget(&mut self, key: u64)
        requires
            old(self).wf(),
        ensures
            final(self).wf(),
            final(self).capacity == old(self).capacity,
            !final(self).has(key),
            final(self).entries@ == (match position(old(self).entries@, key) {
                Some(i) => old(self).entries@.remove(i),
                None => old(self).entries@,
            }),
            final(self).entries@ == forgotten(old(self).entries@, key),
    {
        let ghost before = self.entries@;
        if let Some(i) = self.find(key) {
            let gone = self.entries.remove(i);
            proof {
                assert(self.entries@ == before.remove(i as int));
                assert forall|a: int, b: int|
                    #![trigger self.entries@[a], self.entries@[b]]
                    0 <= a < b < self.entries@.len() implies self.entries@[a].0
                    != self.entries@[b].0 by {
                    let x = if a < i { a } else { a + 1 };
                    let y = if b < i { b } else { b + 1 };
                    assert(self.entries@[a] == before[x]);
                    assert(self.entries@[b] == before[y]);
                }
                assert forall|a: int| !key_at(self.entries@, a, key) by {
                    if key_at(self.entries@, a, key) {
                        let x = if a < i { a } else { a + 1 };
                        assert(self.entries@[a] == before[x]);
                        assert(before[i as int].0 == key);
                        if x < i {
                            assert(before[x].0 != before[i as int].0);
                        } else {
                            assert(before[i as int].0 != before[x].0);
                        }
                    }
                }
            }
        }
    }
}

/// Whatever is put into a cache, it is at the front afterwards, and the others keep their order.
pub proof fn what_was_used_is_in_front(c: ClusterCache, i: int, j: int)
    requires
        c.wf(),
        0 <= i < c.entries@.len(),
        0 <= j < c.entries@.len(),
    ensures
        used(c.entries@, i)[0] == c.entries@[i],
        used(c.entries@, i).len() == c.entries@.len(),
        j < i ==> used(c.entries@, i)[j + 1] == c.entries@[j],
        j > i ==> used(c.entries@, i)[j] == c.entries@[j],
{
}

/// The clusters that are kept take two mebibytes at most, unless one of them alone takes more; another
/// one would not fit.
pub proof fn the_cache_is_bounded(cluster_size: u64)
    requires
        cluster_size > 0,
    ensures
        capacity_for(cluster_size) >= 1,
        capacity_for(cluster_size) == 1 || capacity_for(cluster_size) * cluster_size <= 2 * 1024
            * 1024,
        (capacity_for(cluster_size) + 1) * cluster_size > 2 * 1024 * 1024,
{
    let c = cluster_size as int;
    let n = 0x20_0000int / c;
    vstd::arithmetic::div_mod::lemma_fundamental_div_mod(0x20_0000, c);
    vstd::arithmetic::div_mod::lemma_mod_bound(0x20_0000, c);
    assert(c * n == n * c && (n + 1) * c == n * c + c) by (nonlinear_arith);
    if n < 1 {
        assert((1 + 1) * c >= c) by (nonlinear_arith)
            requires
                c > 0,
        ;
        assert(n * c <= 0) by (nonlinear_arith)
            requires
                n < 1,
                c > 0,
        ;
    }
}

/// The clusters after one was put in.
pub open spec fn inserted(
    s: Seq<(u64, Vec<u8>)>,
    capacity: int,
    key: u64,
    data: Vec<u8>,
) -> Seq<(u64, Vec<u8>)> {
    match position(s, key) {
        Some(i) => used(s, i),
        None => {
            let n = if s.len() >= capacity {
                capacity - 1
            } else {
                s.len() as int
            };
            seq![(key, data)] + s.take(n)
        },
    }
}

/// The clusters after one was forgotten.
pub open spec fn forgotten(s: Seq<(u64, Vec<u8>)>, key: u64) -> Seq<(u64, Vec<u8>)> {
    match position(s, key) {
        Some(i) => s.remove(i),
        None => s,
    }
}

/// The cluster of an entry is that of the one place where it is kept.
proof fn kept_once(s: Seq<(u64, Vec<u8>)>, i: int, key: u64)
    requires
        keys_differ(s),
        key_at(s, i, key),
    ensures
        position(s, key) == Some(i),
{
    let p = choose|p: int| key_at(s, p, key);
    assert(key_at(s, p, key));
    if p < i {
        assert(s[p].0 != s[i].0);
    } else if i < p {
        assert(s[i].0 != s[p].0);
    }
}

/// What is put in is in front, and what was there keeps its order behind it. A cluster that is kept
/// already stays what it was; for a new one the least recently used gives way, and only where there is
/// no room.
pub proof fn the_least_recently_used_gives_way(
    c: ClusterCache,
    key: u64,
    data: Vec<u8>,
    i: int,
)
    requires
        c.wf(),
        0 <= i < c.entries@.len(),
    ensures
        ({
            let s = c.entries@;
            let t = inserted(s, c.capacity as int, key, data);
            &&& t.len() >= 1 && t[0].0 == key
            &&& t.len() <= c.capacity
            &&& !c.has(key) ==> t[0].1 == data
            &&& s[i].0 == key ==> t[0] == s[i] && t.len() == s.len()
            &&& !c.has(key) && s.len() < c.capacity ==> t.len() == s.len() + 1 && t[i + 1] == s[i]
            &&& !c.has(key) && s.len() == c.capacity ==> t.len() == s.len() && (i < s.len() - 1
                ==> t[i + 1] == s[i])
        }),
{
    let s = c.entries@;
    if s[i].0 == key {
        kept_once(s, i, key);
    }
    if c.has(key) {
        let p = choose|p: int| key_at(s, p, key);
        assert(key_at(s, p, key));
        kept_once(s, p, key);
    }
}

/// A cluster that is forgotten is gone, and every other one is still there.
pub proof fn only_the_one_is_forgotten(c: ClusterCache, key: u64, i: int)
    requires
        c.wf(),
        0 <= i < c.entries@.len(),
    ensures
        c.entries@[i].0 == key ==> forgotten(c.entries@, key).len() == c.entries@.len() - 1
            && forall|j: int|
            0 <= j < forgotten(c.entries@, key).len() ==> (#[trigger] forgotten(
                c.entries@,
                key,
            )[j]).0 != key,
        c.entries@[i].0 != key ==> exists|j: int|
            0 <= j < forgotten(c.entries@, key).len() && #[trigger] forgotten(c.entries@, key)[j]
                == c.entries@[i],
{
    let s = c.entries@;
    let t = forgotten(s, key);
    if c.has(key) {
        let p = choose|p: int| key_at(s, p, key);
        assert(key_at(s, p, key));
        kept_once(s, p, key);
        assert forall|j: int| 0 <= j < t.len() implies (#[trigger] t[j]).0 != key by {
            if j < p {
                assert(s[j].0 != s[p].0);
            } else {
                assert(s[p].0 != s[j + 1].0);
            }
        }
        if s[i].0 != key {
            if i < p {
                assert(t[i] == s[i]);
            } else {
                assert(t[i - 1] == s[i]);
            }
        }
    } else {
        assert(!key_at(s, i, key));
        assert(t[i] == s[i]);
    }
}

} // verus!
