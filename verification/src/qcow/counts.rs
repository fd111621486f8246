//! The counts of the clusters of an image, as far as they are in memory.
//!
//! A count is found in two steps: the table points at blocks, and a block holds the counts of as
//! many clusters. A block that is in the file is not written over: a change moves it to another
//! cluster, and only then the table points there.

use crate::qcow::refcount::Outcome;
use std::collections::BTreeMap;
use vstd::arithmetic::div_mod::*;
use vstd::prelude::*;

verus! {

/// A block of counts.
pub struct CountBlock {
    pub counts: Vec<u16>,
    /// The block was changed, and was not written since.
    pub dirty: bool,
}

/// What is known of a count.
#[derive(Clone, Copy, Debug, PartialEq, Eq, Structural)]
pub enum Counted {
    /// The cluster is behind the last one that can be counted.
    Invalid,
    /// The block with that index has to be read first, from that offset.
    NeedBlock(usize, u64),
    Count(u16),
}

/// The table, and the blocks that are in memory.
pub struct RefCounts {
    pub table: Vec<u64>,
    /// The table was changed, and was not written since.
    pub table_dirty: bool,
    pub blocks: BTreeMap<usize, CountBlock>,
    /// Counts of a block.
    pub per_block: usize,
    pub cluster_size: u64,
}

/// Every count that a table can lead to is that of a cluster with an offset.
pub open spec fn is_addressable(blocks: int, per_block: int, cluster_size: int) -> bool {
    &&& blocks > 0
    &&& per_block > 0
    &&& cluster_size > 0
    &&& blocks * per_block * cluster_size <= u64::MAX
}

impl RefCounts {
    /// Every block in memory has its place in the table, and its size.
    pub open spec fn wf(&self) -> bool {
        &&& is_addressable(
            self.table@.len() as int,
            self.per_block as int,
            self.cluster_size as int,
        )
        &&& forall|b: usize| #[trigger]
            self.blocks@.contains_key(b) ==> b < self.table@.len()
                && self.blocks@[b].counts@.len() == self.per_block
    }

    /// The number of the cluster at an offset.
    pub open spec fn cluster(&self, address: u64) -> int {
        address as int / self.cluster_size as int
    }

    /// The block that counts the cluster at an offset.
    pub open spec fn block_of(&self, address: u64) -> int {
        self.cluster(address) / self.per_block as int
    }

    /// The place of the cluster's count in its block.
    pub open spec fn place_of(&self, address: u64) -> int {
        self.cluster(address) % self.per_block as int
    }

    /// The block of a cluster is in memory.
    pub open spec fn in_memory(&self, address: u64) -> bool {
        &&& self.block_of(address) < self.table@.len()
        &&& self.blocks@.contains_key(self.block_of(address) as usize)
    }

    /// What is known of the count of the cluster at an offset: where the table points nowhere, all
    /// counts are zero.
    pub open spec fn counted(&self, address: u64) -> Counted {
        let b = self.block_of(address);
        if b >= self.table@.len() {
            Counted::Invalid
        } else if self.in_memory(address) {
            Counted::Count(self.blocks@[b as usize].counts@[self.place_of(address)])
        } else if self.table@[b] == 0 {
            Counted::Count(0)
        } else {
            Counted::NeedBlock(b as usize, self.table@[b])
        }
    }

    /// How setting a count goes, with a new cluster for its block or without. Nothing comes of it
    /// for a cluster that cannot be counted.
    pub open spec fn setting(&self, address: u64, new_block: Option<u64>) -> Option<Outcome> {
        let b = self.block_of(address);
        if b >= self.table@.len() {
            None
        } else if self.in_memory(address) && self.blocks@[b as usize].dirty {
            Some(Outcome::Stored)
        } else if !self.in_memory(address) && self.table@[b] != 0 {
            Some(Outcome::NeedBlock(self.table@[b]))
        } else if new_block is None {
            Some(Outcome::NeedNewBlock)
        } else if self.in_memory(address) {
            Some(Outcome::StoredAndMoved(self.table@[b]))
        } else {
            Some(Outcome::Stored)
        }
    }

    /// Everything but the counts is as in `other`.
    pub open spec fn same_shape(&self, other: &Self) -> bool {
        &&& self.table@.len() == other.table@.len()
        &&& self.per_block == other.per_block
        &&& self.cluster_size == other.cluster_size
    }

    /// Storing the count of the cluster at an offset changed its block alone. Where the block cannot
    /// be written to the cluster that it has, the table points at `new_block` for it.
    pub open spec fn stored(&self, after: &Self, address: u64, new_block: Option<u64>) -> bool {
        let b = self.block_of(address);
        let stays = self.in_memory(address) && self.blocks@[b as usize].dirty;
        &&& after.blocks@[b as usize].dirty
        &&& after.blocks@.dom() == self.blocks@.dom().insert(b as usize)
        &&& forall|k: usize|
            k != b && self.blocks@.contains_key(k) ==> #[trigger] after.blocks@[k]
                == self.blocks@[k]
        &&& after.table@ == if stays {
            self.table@
        } else {
            self.table@.update(b, new_block->0)
        }
        &&& after.table_dirty == (self.table_dirty || !stays)
    }

    /// The place of a cluster's count.
    pub(crate) proof fn places(&self, address: u64)
        requires
            self.wf(),
        ensures
            0 <= self.block_of(address) <= self.cluster(address) <= address,
            0 <= self.place_of(address) < self.per_block,
            self.cluster(address) == self.block_of(address) * self.per_block + self.place_of(
                address,
            ),
    {
        let c = self.cluster(address);
        lemma_div_pos_is_pos(address as int, self.cluster_size as int);
        lemma_div_is_ordered_by_denominator(address as int, 1, self.cluster_size as int);
        lemma_div_pos_is_pos(c, self.per_block as int);
        lemma_div_is_ordered_by_denominator(c, 1, self.per_block as int);
        lemma_fundamental_div_mod(c, self.per_block as int);
        lemma_mod_bound(c, self.per_block as int);
        assert(self.per_block * self.block_of(address) == self.block_of(address) * self.per_block)
            by (nonlinear_arith);
    }

    /// The counts that a table leads to, with no block in memory. There are none without a table,
    /// nor with one that leads beyond every offset.
    pub fn new(table: Vec<u64>, per_block: usize, cluster_size: u64) -> (r: Option<Self>)
        ensures
            r is Some == is_addressable(
                table@.len() as int,
                per_block as int,
                cluster_size as int,
            ),
            r matches Some(c) ==> {
                &&& c.wf()
                &&& c.table@ == table@
                &&& !c.table_dirty
                &&& c.blocks@ == Map::<usize, CountBlock>::empty()
                &&& c.per_block == per_block
                &&& c.cluster_size == cluster_size
            },
    {
        let blocks: u64 = table.len() as u64;
        if blocks == 0 || per_block == 0 || cluster_size == 0 {
            return None;
        }
        proof {
            let n = blocks * per_block;
            assert(n <= n * cluster_size) by (nonlinear_arith)
                requires
                    n >= 0,
                    cluster_size >= 1,
            ;
            assert(0 <= blocks * per_block) by (nonlinear_arith);
        }
        let clusters: u64 = match blocks.checked_mul(per_block as u64) {
            Some(n) => n,
            None => {
                return None;
            },
        };
        if clusters.checked_mul(cluster_size).is_none() {
            return None;
        }
        Some(
            RefCounts { table, table_dirty: false, blocks: BTreeMap::new(), per_block, cluster_size },
        )
    }

    /// The offset of the last cluster that can be counted.
    pub fn max_valid_cluster_offset(&self) -> (r: u64)
        requires
            self.wf(),
        ensures
            r == (self.table@.len() * self.per_block - 1) * self.cluster_size,
    {
        proof {
            let t = self.table@.len() as int;
            let n = t * self.per_block;
            assert(1 <= n && n <= n * self.cluster_size && (n - 1) * self.cluster_size <= n
                * self.cluster_size) by (nonlinear_arith)
                requires
                    n == t * self.per_block,
                    t >= 1,
                    self.per_block >= 1,
                    self.cluster_size >= 1,
            ;
        }
        (self.table.len() as u64 * self.per_block as u64 - 1) * self.cluster_size
    }

    /// The block that counts the cluster at an offset, if there is one.
    pub fn block_index(&self, address: u64) -> (r: Option<usize>)
        requires
            self.wf(),
        ensures
            r == (if self.block_of(address) < self.table@.len() {
                Some(self.block_of(address) as usize)
            } else {
                None
            }),
    {
        proof {
            self.places(address);
        }
        let block: u64 = address / self.cluster_size / self.per_block as u64;
        if block < self.table.len() as u64 {
            Some(block as usize)
        } else {
            None
        }
    }

    /// The count of the cluster at an offset.
    pub fn get_cluster_refcount(&self, address: u64) -> (r: Counted)
        requires
            self.wf(),
        ensures
            r == self.counted(address),
    {
        proof {
            self.places(address);
        }
        let cluster: u64 = address / self.cluster_size;
        let block: u64 = cluster / self.per_block as u64;
        if block >= self.table.len() as u64 {
            return Counted::Invalid;
        }
        let b: usize = block as usize;
        let at: u64 = self.table[b];
        match self.blocks.get(&b) {
            Some(held) => Counted::Count(held.counts[(cluster % self.per_block as u64) as usize]),
            None => if at == 0 {
                Counted::Count(0)
            } else {
                Counted::NeedBlock(b, at)
            },
        }
    }

    /// Takes in a block that was read. One that is in memory already is kept.
    pub fn load_block(&mut self, block: usize, counts: Vec<u16>)
        requires
            old(self).wf(),
            block < old(self).table@.len(),
            counts@.len() == old(self).per_block,
        ensures
            final(self).wf(),
            final(self).same_shape(old(self)),
            final(self).table@ == old(self).table@,
            final(self).table_dirty == old(self).table_dirty,
            if old(self).blocks@.contains_key(block) {
                final(self).blocks@ == old(self).blocks@
            } else {
                final(self).blocks@ == old(self).blocks@.insert(
                    block,
                    CountBlock { counts, dirty: false },
                )
            },
    {
        if self.blocks.get(&block).is_none() {
            self.blocks.insert(block, CountBlock { counts, dirty: false });
        }
    }

    /// Takes in a block that was read, if it is one of the table's and has its size.
    pub fn take_block(&mut self, block: usize, counts: Vec<u16>) -> (r: bool)
        requires
            old(self).wf(),
        ensures
            final(self).wf(),
            final(self).same_shape(old(self)),
            final(self).table@ == old(self).table@,
            final(self).table_dirty == old(self).table_dirty,
            r == (block < old(self).table@.len() && counts@.len() == old(self).per_block),
            final(self).blocks@ == (if r && !old(self).blocks@.contains_key(block) {
                old(self).blocks@.insert(block, CountBlock { counts, dirty: false })
            } else {
                old(self).blocks@
            }),
    {
        if block >= self.table.len() || counts.len() != self.per_block {
            return false;
        }
        self.load_block(block, counts);
        true
    }

    /// The offset of a cluster behind the end of a file, and the length of the file with it, unless
    /// the count of that cluster would have no place.
    pub fn add_cluster_end(&self, file_size: u64) -> (r: Option<(u64, u64)>)
        requires
            self.wf(),
        ensures
            match r {
                Some((at, len)) => {
                    &&& at % self.cluster_size == 0
                    &&& file_size <= at < file_size + self.cluster_size
                    &&& at <= (self.table@.len() * self.per_block - 1) * self.cluster_size
                    &&& len == at + self.cluster_size
                },
                None => forall|at: int|
                    file_size <= at && #[trigger] (at % self.cluster_size as int) == 0 ==> at > (
                    self.table@.len() * self.per_block - 1) * self.cluster_size,
            },
    {
        let last: u64 = self.max_valid_cluster_offset();
        proof {
            let n = self.table@.len() * self.per_block;
            assert((n - 1) * self.cluster_size + self.cluster_size == n * self.cluster_size)
                by (nonlinear_arith);
        }
        match cluster_at_end(file_size, self.cluster_size, last) {
            Some(at) => Some((at, at + self.cluster_size)),
            None => None,
        }
    }

    /// Sets the count of the cluster at an offset, if its block is there and has a cluster that it
    /// can be written to: its own, where it was changed before, or else `new_block`. No other count
    /// changes.
    pub fn set_cluster_refcount(&mut self, address: u64, count: u16, new_block: Option<u64>) -> (r:
        Option<Outcome>)
        requires
            old(self).wf(),
        ensures
            final(self).wf(),
            final(self).same_shape(old(self)),
            r == old(self).setting(address, new_block),
            match r {
                Some(Outcome::Stored) | Some(Outcome::StoredAndMoved(_)) => {
                    &&& final(self).counted(address) == Counted::Count(count)
                    &&& forall|other: u64|
                        old(self).cluster(other) != old(self).cluster(address) ==> #[trigger]
                            final(self).counted(other) == old(self).counted(other)
                    &&& old(self).stored(final(self), address, new_block)
                },
                _ => *final(self) == *old(self),
            },
    {
        proof {
            self.places(address);
        }
        let cluster: u64 = address / self.cluster_size;
        let block: u64 = cluster / self.per_block as u64;
        if block >= self.table.len() as u64 {
            return None;
        }
        let b: usize = block as usize;
        let index: usize = (cluster % self.per_block as u64) as usize;
        let at: u64 = self.table[b];
        let held: Option<bool> = match self.blocks.get(&b) {
            Some(k) => Some(k.dirty),
            None => None,
        };
        let outcome = match (held, new_block) {
            (Some(true), _) => Outcome::Stored,
            (None, _) if at != 0 => {
                return Some(Outcome::NeedBlock(at));
            },
            (_, None) => {
                return Some(Outcome::NeedNewBlock);
            },
            (Some(_), Some(n)) => {
                self.table.set(b, n);
                self.table_dirty = true;
                Outcome::StoredAndMoved(at)
            },
            (None, Some(n)) => {
                self.table.set(b, n);
                self.table_dirty = true;
                Outcome::Stored
            },
        };
        let mut counts: Vec<u16> = match self.blocks.remove(&b) {
            Some(k) => k.counts,
            None => vec![0u16; self.per_block],
        };
        let ghost before = counts@;
        counts.set(index, count);
        let ghost now = counts@;
        self.blocks.insert(b, CountBlock { counts, dirty: true });
        proof {
            let m0 = old(self).blocks@;
            let m1 = self.blocks@;
            assert(m1.dom() =~= m0.dom().insert(b));
            assert forall|other: u64|
                old(self).cluster(other) != old(self).cluster(address) implies #[trigger]
                    self.counted(other) == old(self).counted(other) by {
                old(self).places(other);
                if old(self).block_of(other) == b {
                    assert(old(self).place_of(other) != index);
                    assert(now[old(self).place_of(other)] == before[old(self).place_of(other)]);
                } else if old(self).block_of(other) < old(self).table@.len() {
                    assert(m1.contains_key(old(self).block_of(other) as usize)
                        == m0.contains_key(old(self).block_of(other) as usize));
                }
            }
        }
        Some(outcome)
    }

    /// The first block that was changed, from a place of the table on, and where it is written to.
    pub fn next_dirty(&self, from: usize) -> (r: Option<(usize, u64)>)
        requires
            self.wf(),
        ensures
            match r {
                Some((b, at)) => {
                    &&& from <= b < self.table@.len()
                    &&& self.blocks@.contains_key(b)
                    &&& self.blocks@[b].dirty
                    &&& at == self.table@[b as int]
                    &&& forall|k: usize|
                        from <= k < b && #[trigger] self.blocks@.contains_key(k)
                            ==> !self.blocks@[k].dirty
                },
                None => forall|k: usize|
                    from <= k && #[trigger] self.blocks@.contains_key(k) ==> !self.blocks@[k].dirty,
            },
    {
        let mut b: usize = from;
        while b < self.table.len()
            invariant
                self.wf(),
                from <= b,
                b <= self.table@.len() || b == from,
                forall|k: usize|
                    from <= k < b && #[trigger] self.blocks@.contains_key(k)
                        ==> !self.blocks@[k].dirty,
            decreases self.table@.len() - b,
        {
            if let Some(held) = self.blocks.get(&b) {
                if held.dirty {
                    return Some((b, self.table[b]));
                }
            }
            b = b + 1;
        }
        None
    }

    /// The counts of a block, for writing.
    pub fn block_counts(&self, block: usize) -> (r: Option<&Vec<u16>>)
        ensures
            match r {
                Some(c) => self.blocks@.contains_key(block) && *c == self.blocks@[block].counts,
                None => !self.blocks@.contains_key(block),
            },
    {
        match self.blocks.get(&block) {
            Some(held) => Some(&held.counts),
            None => None,
        }
    }

    /// A block was written.
    pub fn mark_clean(&mut self, block: usize)
        requires
            old(self).wf(),
        ensures
            final(self).wf(),
            final(self).same_shape(old(self)),
            final(self).table@ == old(self).table@,
            final(self).table_dirty == old(self).table_dirty,
            if old(self).blocks@.contains_key(block) {
                final(self).blocks@ == old(self).blocks@.insert(
                    block,
                    CountBlock { counts: old(self).blocks@[block].counts, dirty: false },
                )
            } else {
                final(self).blocks@ == old(self).blocks@
            },
    {
        match self.blocks.remove(&block) {
            Some(held) => {
                self.blocks.insert(block, CountBlock { counts: held.counts, dirty: false });
                assert(self.blocks@ =~= old(self).blocks@.insert(
                    block,
                    CountBlock { counts: held.counts, dirty: false },
                ));
            },
            None => {
                assert(self.blocks@ =~= old(self).blocks@);
            },
        }
    }

    /// The table was written.
    pub fn table_written(&mut self)
        requires
            old(self).wf(),
        ensures
            final(self).wf(),
            *final(self) == (RefCounts { table_dirty: false, ..*old(self) }),
    {
        self.table_dirty = false;
    }
}

/// The offset of a cluster behind the end of a file, unless its count would have no place.
pub fn cluster_at_end(file_size: u64, cluster_size: u64, max_valid: u64) -> (r: Option<u64>)
    requires
        cluster_size > 0,
        max_valid + cluster_size <= u64::MAX,
    ensures
        match r {
            Some(at) => {
                &&& at % cluster_size == 0
                &&& file_size <= at < file_size + cluster_size
                &&& at <= max_valid
            },
            None => forall|at: int|
                file_size <= at && #[trigger] (at % cluster_size as int) == 0 ==> at > max_valid,
        },
{
    let past: u64 = file_size % cluster_size;
    proof {
        lemma_fundamental_div_mod(file_size as int, cluster_size as int);
        lemma_mod_bound(file_size as int, cluster_size as int);
        lemma_mod_decreases(file_size as nat, cluster_size as nat);
    }
    let start: u64 = file_size - past;
    proof {
        lemma_mod_multiples_basic(file_size as int / cluster_size as int, cluster_size as int);
        lemma_mod_multiples_basic(file_size as int / cluster_size as int + 1, cluster_size as int);
        let q = file_size as int / cluster_size as int;
        assert(cluster_size * q == q * cluster_size && (q + 1) * cluster_size == q * cluster_size
            + cluster_size) by (nonlinear_arith);
        assert forall|at: int|
            file_size <= at && #[trigger] (at % cluster_size as int) == 0 implies at >= (if past
            == 0 {
            start as int
        } else {
            start + cluster_size
        }) by {
            lemma_fundamental_div_mod(at, cluster_size as int);
            let p = at / cluster_size as int;
            assert(past > 0 ==> p >= q + 1) by (nonlinear_arith)
                requires
                    cluster_size * p >= q * cluster_size + past,
                    cluster_size > 0,
            ;
            assert(past > 0 ==> cluster_size * p >= (q + 1) * cluster_size) by (nonlinear_arith)
                requires
                    past > 0 ==> p >= q + 1,
                    cluster_size > 0,
            ;
        }
    }
    if past == 0 {
        return if start <= max_valid {
            Some(start)
        } else {
            None
        };
    }
    if start > max_valid {
        return None;
    }
    let at: u64 = start + cluster_size;
    if at <= max_valid {
        Some(at)
    } else {
        None
    }
}

/// What is in the file is not written over: a block that was not changed since it was read or
/// written needs another cluster before any of its counts can change.
pub proof fn blocks_move_before_they_change(c: RefCounts, address: u64, new_block: Option<u64>)
    requires
        c.wf(),
        c.in_memory(address),
        !c.blocks@[c.block_of(address) as usize].dirty,
    ensures
        new_block is None ==> c.setting(address, new_block) == Some(Outcome::NeedNewBlock),
        new_block is Some ==> c.setting(address, new_block) == Some(
            Outcome::StoredAndMoved(c.table@[c.block_of(address)]),
        ),
{
    c.places(address);
}

/// A block holds the counts of clusters that follow each other, and the next block goes on where it
/// ends: the number of a cluster says where its count is.
pub proof fn counts_are_found_in_the_blocks(c: RefCounts, address: u64)
    requires
        c.wf(),
    ensures
        c.cluster(address) * c.cluster_size <= address < c.cluster(address) * c.cluster_size
            + c.cluster_size,
        c.cluster(address) == c.block_of(address) * c.per_block + c.place_of(address),
        0 <= c.place_of(address) < c.per_block,
{
    c.places(address);
    let s = c.cluster_size as int;
    lemma_fundamental_div_mod(address as int, s);
    lemma_mod_bound(address as int, s);
    let q = address as int / s;
    assert(s * q == q * s) by (nonlinear_arith);
}

/// A count can be set exactly where it can be known: behind the last block neither is possible, and a
/// block that has to be read for the one has to be read for the other. A cluster for the block is asked
/// for only where none was found, and where the block cannot be written to its own.
pub proof fn counts_that_are_known_can_be_set(c: RefCounts, address: u64, new_block: Option<u64>)
    requires
        c.wf(),
    ensures
        c.setting(address, new_block) is None <==> c.counted(address) is Invalid,
        c.setting(address, new_block) matches Some(Outcome::NeedBlock(at)) ==> (c.counted(
            address,
        ) matches Counted::NeedBlock(_, a) && a == at),
        c.counted(address) is NeedBlock ==> (c.setting(address, new_block) matches Some(o) && o
            is NeedBlock),
        new_block is Some ==> c.setting(address, new_block) != Some(Outcome::NeedNewBlock),
        c.setting(address, None) != Some(Outcome::NeedNewBlock) ==> c.setting(address, new_block)
            == c.setting(address, None),
        c.setting(address, new_block) matches Some(Outcome::StoredAndMoved(at)) ==> c.in_memory(
            address,
        ) && at == c.table@[c.block_of(address)],
        c.counted(address) matches Counted::NeedBlock(b, at) ==> b == c.block_of(address) && at
            == c.table@[b as int] && at != 0,
{
    c.places(address);
    assert(c.table.len() == c.table@.len());
}

/// The last cluster that can be counted is the one at the offset that is said to be the last: a cluster
/// there and before it has a place for its count, and one behind it has none.
pub proof fn the_last_offset_can_be_counted(c: RefCounts, i: int)
    requires
        c.wf(),
        0 <= i,
        i * c.cluster_size <= u64::MAX,
    ensures
        c.counted((i * c.cluster_size) as u64) is Invalid <==> i * c.cluster_size > (c.table@.len()
            * c.per_block - 1) * c.cluster_size,
{
    let s = c.cluster_size as int;
    let p = c.per_block as int;
    let t = c.table@.len() as int;
    assert(0 <= i * s) by (nonlinear_arith)
        requires
            0 <= i,
            0 < s,
    ;
    let a = (i * s) as u64;
    lemma_fundamental_div_mod_converse(i * s, s, i, 0);
    assert(c.cluster(a) == i);
    c.places(a);
    let b = c.block_of(a);
    assert(b >= t <==> i > t * p - 1) by (nonlinear_arith)
        requires
            i == b * p + c.place_of(a),
            0 <= c.place_of(a) < p,
    ;
    assert(i > t * p - 1 <==> i * s > (t * p - 1) * s) by (nonlinear_arith)
        requires
            0 < s,
    ;
}

} // verus!
