//! Operations on an image that need the file in between.
//!
//! Each of them is taken step by step. A step says what it needs next: something of the file, or
//! another operation; what came of it is given to the step that follows.

use vstd::prelude::*;

use crate::qcow;
use crate::qcow::cache;
use crate::qcow::cache::ClusterCache;
use crate::qcow::contents;
use crate::qcow::counts::{Counted, RefCounts};
use crate::qcow::geometry;
use crate::qcow::map::{ClusterData, Dropped, Fill, Lookup, Mapping, WritePlan, ZeroPlan};
use crate::qcow::open;
use crate::qcow::refcount;
use crate::qcow::refcount::{Assignments, Outcome, Pools, Release, Step};

verus! {

/// What a step needs before the next.
#[derive(Clone, Copy, Debug, PartialEq, Eq, Structural)]
pub enum Need {
    /// The L2 table for that L1 index has to be in memory; it is at that offset of the file.
    Table(usize, u64),
    /// That block of counts has to be in memory; it is at that offset of the file.
    Block(usize, u64),
    /// There has to be room for another L2 table in memory.
    Room,
    /// A cluster of the file that nothing uses, which starts out with that.
    Cluster(Fill),
    /// The count of the cluster at that offset.
    Count(u64),
    /// The count of the cluster at that offset has to be set.
    SetCount(u64, u16),
    /// The payload of that compressed entry has to be released.
    Release(u64),
    /// The storage of the cluster at that offset can go, where the file system lets it.
    Punch(u64),
}

/// What came of what a step needed.
#[derive(Clone, Copy, Debug, PartialEq, Eq, Structural)]
pub enum Given {
    /// It was done.
    Done,
    /// The offset of a cluster.
    Cluster(u64),
    /// A count.
    Count(u16),
}

/// What is held in memory of an image, but for its counts.
pub struct Layout {
    pub mapping: Mapping,
    pub pools: Pools,
    /// Clusters that were decompressed.
    pub cached: ClusterCache,
}

impl Layout {
    pub open spec fn wf(&self) -> bool {
        self.mapping.wf() && self.cached.wf()
    }
}

/// How a step ends.
#[derive(Clone, Copy, Debug, PartialEq, Eq, Structural)]
pub enum Turn {
    Need(Need),
    /// Nothing is needed: the next step can be taken at once.
    Go,
    /// The operation is over. Of a write, that is where its data goes.
    Done(u64),
    /// The operation cannot be brought to its end.
    Failed,
}

/// How far a write has come with finding the place for its data.
#[derive(Clone, Copy, Debug, PartialEq, Eq, Structural)]
pub enum PlaceStage {
    /// It is not known what the write needs.
    Plan,
    /// It waits for room for a new table.
    Room,
    /// It waits for the cluster of the new table.
    Table,
    /// It waits for the cluster of the data.
    Data,
    /// It waits until that cluster is counted.
    Counted,
    /// It waits for a cluster that the changed table can go to.
    TableLast,
    /// The tables are changed, and counts are left to be set.
    Settle,
}

/// A write that looks for the place of its data.
pub struct Placing {
    pub address: u64,
    /// How many bytes from there on are going to be written at once.
    pub overwrite_len: usize,
    pub stage: PlaceStage,
    pub plan: WritePlan,
    pub table: Option<u64>,
    pub data: u64,
    /// The counts that are left to be set, in order.
    pub counts: Vec<(u64, u16)>,
}

/// What the cluster of the data starts out with.
pub open spec fn fill_of(plan: WritePlan) -> Fill {
    match plan {
        WritePlan::TableThenData(fill) => fill,
        WritePlan::DataThenTable(fill) => fill,
        WritePlan::Data(fill) => fill,
        _ => Fill::Zeroed,
    }
}

/// How a write begins.
pub open spec fn begun(plan: WritePlan) -> (PlaceStage, Turn) {
    match plan {
        WritePlan::Invalid => (PlaceStage::Plan, Turn::Failed),
        WritePlan::NeedTable(i, at) => (PlaceStage::Plan, Turn::Need(Need::Table(i, at))),
        WritePlan::InPlace(offset) => (PlaceStage::Plan, Turn::Done(offset)),
        WritePlan::TableThenData(_) => (PlaceStage::Room, Turn::Need(Need::Room)),
        WritePlan::DataThenTable(fill) => (PlaceStage::Data, Turn::Need(Need::Cluster(fill))),
        WritePlan::Data(fill) => (PlaceStage::Data, Turn::Need(Need::Cluster(fill))),
    }
}

/// The count that is set next, or the end of the operation.
pub open spec fn settled(counts: Seq<(u64, u16)>, end: u64) -> Turn {
    if counts.len() > 0 {
        Turn::Need(Need::SetCount(counts[0].0, counts[0].1))
    } else {
        Turn::Done(end)
    }
}

/// The counts that are left once the next one is set.
pub open spec fn left(counts: Seq<(u64, u16)>) -> Seq<(u64, u16)> {
    if counts.len() > 0 {
        counts.skip(1)
    } else {
        counts
    }
}

/// The cache without the cluster of an entry.
pub open spec fn without(c: ClusterCache, entry: u64) -> Seq<(u64, Vec<u8>)> {
    match cache::position(c.entries@, entry) {
        Some(i) => c.entries@.remove(i),
        None => c.entries@,
    }
}

/// Changing the entry of an address gives up the cluster of its table: the table goes to another.
pub open spec fn table_gone(m: Mapping, address: u64, table: Option<u64>) -> bool {
    table is Some && m.l1_table@[m.i(address)] != 0
}

/// What has to be counted when the entry of an address changes.
pub open spec fn counts_for(m: Mapping, address: u64, table: Option<u64>) -> Seq<(u64, u16)> {
    (if table_gone(m, address, table) {
        seq![(m.l1_table@[m.i(address)], 0u16)]
    } else {
        Seq::<(u64, u16)>::empty()
    }) + (match table {
        Some(t) => seq![(t, 1u16)],
        None => Seq::<(u64, u16)>::empty(),
    })
}

/// The image `after` is `before` with `entry` for the cluster of `address`; its table goes to the
/// cluster `table`, where it needs one, and the cluster that it was in can be used later.
pub open spec fn pointed(
    before: Layout,
    after: Layout,
    address: u64,
    entry: u64,
    table: Option<u64>,
) -> bool {
    let m = before.mapping;
    &&& qcow::map::entry_set(m, after.mapping, address, entry)
    &&& after.mapping.l1_table@ == (match table {
        Some(t) => m.l1_table@.update(m.i(address), t),
        None => m.l1_table@,
    })
    &&& after.mapping.l1_dirty == (m.l1_dirty || table is Some)
    &&& after.mapping.has_backing == m.has_backing
    &&& after.pools.unref_clusters@ == (if table_gone(m, address, table) {
        before.pools.unref_clusters@.push(m.l1_table@[m.i(address)])
    } else {
        before.pools.unref_clusters@
    })
    &&& after.pools.avail_clusters@ == before.pools.avail_clusters@
    &&& after.pools.punch_clusters@ == before.pools.punch_clusters@
}

/// Sets the next of the counts that are left.
fn settle(counts: &mut Vec<(u64, u16)>, end: u64) -> (r: Turn)
    ensures
        r == settled(old(counts)@, end),
        final(counts)@ == left(old(counts)@),
{
    if counts.len() == 0 {
        return Turn::Done(end);
    }
    let (address, count) = counts.remove(0);
    assert(counts@ =~= old(counts)@.skip(1));
    Turn::Need(Need::SetCount(address, count))
}

impl Layout {
    /// Points the tables at `entry` for an address, and says what has to be counted.
    fn point(&mut self, address: u64, entry: u64, table: Option<u64>) -> (r: Vec<(u64, u16)>)
        requires
            old(self).wf(),
            old(self).mapping.covers(address),
            qcow::map::entry_wf(entry),
            old(self).mapping.cached().contains_key(old(self).mapping.i(address)) || old(
                self,
            ).mapping.l1_table@[old(self).mapping.i(address)] == 0,
            !old(self).mapping.cached().contains_key(old(self).mapping.i(address)) ==> old(
                self,
            ).mapping.tables@.len() < qcow::map::MAX_TABLES,
            old(self).mapping.needs_table_cluster(address) == (table is Some),
            table matches Some(t) ==> t != 0,
        ensures
            final(self).wf(),
            pointed(*old(self), *final(self), address, entry, table),
            final(self).cached == old(self).cached,
            r@ == counts_for(old(self).mapping, address, table),
    {
        let ghost before = *self;
        let updated = self.mapping.update_cluster_addr(address, entry, table);
        self.pools.unref_all(&updated.unref);
        proof {
            let m = before.mapping;
            assert(updated.refcounts@ =~= counts_for(m, address, table));
            assert(self.pools.unref_clusters@ =~= (if table_gone(m, address, table) {
                before.pools.unref_clusters@.push(m.l1_table@[m.i(address)])
            } else {
                before.pools.unref_clusters@
            }));
        }
        updated.refcounts
    }
}

impl Placing {
    /// Starts a write of that many bytes at an address. Where the bytes are not going to be written
    /// at once, `overwrite_len` is zero.
    pub fn start(address: u64, overwrite_len: usize) -> (r: Placing)
        ensures
            r.address == address,
            r.overwrite_len == overwrite_len,
            r.stage == PlaceStage::Plan,
            r.table is None,
            r.counts@ == Seq::<(u64, u16)>::empty(),
    {
        Placing {
            address,
            overwrite_len,
            stage: PlaceStage::Plan,
            plan: WritePlan::Invalid,
            table: None,
            data: 0,
            counts: Vec::new(),
        }
    }

    /// The tables can be changed: they are as they were when the write began, the cluster of the
    /// data can be pointed at, and so can that of the table.
    pub open spec fn ready(&self, m: Mapping, table: Option<u64>) -> bool {
        &&& m.write_plan(self.address, self.overwrite_len) == self.plan
        &&& (self.plan is TableThenData || self.plan is DataThenTable || self.plan is Data)
        &&& qcow::map::is_plain(self.data)
        &&& (table is Some) == !(self.plan is Data)
        &&& table matches Some(t) ==> t != 0
        &&& self.plan is TableThenData ==> m.tables@.len() < qcow::map::MAX_TABLES
    }

    /// Where the data goes.
    pub open spec fn end(&self, m: Mapping) -> u64 {
        (self.data + self.address as int % m.geometry.cs()) as u64
    }

    /// The tables point at the cluster of the data. A compressed cluster that they pointed at
    /// before is released first, and what has to be counted comes after that.
    pub open spec fn repointed(
        &self,
        after: &Self,
        table: Option<u64>,
        before: Layout,
        now: Layout,
        r: Turn,
    ) -> bool {
        let counts = counts_for(before.mapping, self.address, table);
        &&& pointed(before, now, self.address, self.data, table)
        &&& after.stage == PlaceStage::Settle
        &&& after.data == self.data
        &&& match before.mapping.lookup(self.address) {
            Lookup::Found(ClusterData::Compressed(entry)) => {
                &&& r == Turn::Need(Need::Release(entry))
                &&& now.cached.entries@ == without(before.cached, entry)
                &&& after.counts@ == counts
            },
            _ => {
                &&& r == settled(counts, self.end(before.mapping))
                &&& now.cached == before.cached
                &&& after.counts@ == left(counts)
            },
        }
    }

    /// Changes the tables, if they can be changed.
    fn repoint(&mut self, layout: &mut Layout, table: Option<u64>) -> (r: Turn)
        requires
            old(layout).wf(),
        ensures
            final(layout).wf(),
            final(layout).cached.capacity == old(layout).cached.capacity,
            final(self).address == old(self).address,
            final(self).overwrite_len == old(self).overwrite_len,
            if old(self).ready(old(layout).mapping, table) {
                old(self).repointed(final(self), table, *old(layout), *final(layout), r)
            } else {
                r == Turn::Failed && *final(layout) == *old(layout)
            },
    {
        let plan = layout.mapping.file_offset_write(self.address, self.overwrite_len);
        if plan != self.plan {
            return Turn::Failed;
        }
        let with_table = match plan {
            WritePlan::TableThenData(_) => true,
            WritePlan::DataThenTable(_) => true,
            WritePlan::Data(_) => false,
            _ => {
                return Turn::Failed;
            },
        };
        let data: u64 = self.data;
        if data == 0 || data & qcow::TABLE_OFFSET_MASK != data || table.is_some() != with_table {
            return Turn::Failed;
        }
        if let Some(t) = table {
            if t == 0 {
                return Turn::Failed;
            }
        }
        if let WritePlan::TableThenData(_) = plan {
            if layout.mapping.tables.len() >= qcow::map::MAX_TABLES {
                return Turn::Failed;
            }
        }
        let found = layout.mapping.file_offset_read(self.address);
        proof {
            qcow::map::plain_bounds(data);
            layout.mapping.geometry.bounds();
        }
        let end: u64 = data + layout.mapping.geometry.cluster_offset(self.address);
        self.counts = layout.point(self.address, data, table);
        self.stage = PlaceStage::Settle;
        match found {
            Lookup::Found(ClusterData::Compressed(entry)) => {
                layout.cached.forget(entry);
                Turn::Need(Need::Release(entry))
            },
            _ => settle(&mut self.counts, end),
        }
    }

    /// The write has gone a step further that changes nothing but itself.
    pub open spec fn moved(&self, after: &Self, m: Mapping, given: Given, r: Turn) -> bool {
        match (self.stage, given) {
            (PlaceStage::Plan, _) => {
                let plan = m.write_plan(self.address, self.overwrite_len);
                &&& after.plan == plan
                &&& (after.stage, r) == begun(plan)
                &&& after.table == self.table
                &&& after.counts == self.counts
            },
            (PlaceStage::Room, _) => {
                &&& *after == (Placing { stage: PlaceStage::Table, ..*self })
                &&& r == Turn::Need(Need::Cluster(Fill::Zeroed))
            },
            (PlaceStage::Table, Given::Cluster(t)) => {
                &&& *after == (Placing { stage: PlaceStage::Data, table: Some(t), ..*self })
                &&& r == Turn::Need(Need::Cluster(fill_of(self.plan)))
            },
            (PlaceStage::Data, Given::Cluster(d)) => {
                &&& *after == (Placing { stage: PlaceStage::Counted, data: d, ..*self })
                &&& r == Turn::Need(Need::SetCount(d, 1))
            },
            (PlaceStage::Counted, _) => {
                &&& *after == (Placing { stage: PlaceStage::TableLast, ..*self })
                &&& r == Turn::Need(Need::Cluster(Fill::Zeroed))
            },
            (PlaceStage::Settle, _) => if self.data + self.address as int % m.geometry.cs()
                > u64::MAX {
                r == Turn::Failed
            } else {
                &&& r == settled(self.counts@, self.end(m))
                &&& after.counts@ == left(self.counts@)
                &&& after.data == self.data
                &&& after.stage == self.stage
            },
            _ => r == Turn::Failed,
        }
    }

    /// The cluster of the table, if with what is given the tables are changed next.
    pub open spec fn repoints(&self, given: Given) -> Option<Option<u64>> {
        match (self.stage, given) {
            (PlaceStage::Counted, _) => if self.plan is DataThenTable {
                None
            } else {
                Some(self.table)
            },
            (PlaceStage::TableLast, Given::Cluster(t)) => Some(Some(t)),
            _ => None,
        }
    }

    /// Takes the write a step further.
    pub fn file_offset_write(&mut self, layout: &mut Layout, given: Given) -> (r: Turn)
        requires
            old(layout).wf(),
        ensures
            final(layout).wf(),
            final(layout).cached.capacity == old(layout).cached.capacity,
            final(self).address == old(self).address,
            final(self).overwrite_len == old(self).overwrite_len,
            match old(self).repoints(given) {
                Some(table) => if old(self).ready(old(layout).mapping, table) {
                    old(self).repointed(final(self), table, *old(layout), *final(layout), r)
                } else {
                    r == Turn::Failed && *final(layout) == *old(layout)
                },
                None => {
                    &&& *final(layout) == *old(layout)
                    &&& old(self).moved(final(self), old(layout).mapping, given, r)
                },
            },
    {
        match self.stage {
            PlaceStage::Plan => {
                self.plan = layout.mapping.file_offset_write(self.address, self.overwrite_len);
                match self.plan {
                    WritePlan::Invalid => Turn::Failed,
                    WritePlan::NeedTable(i, at) => Turn::Need(Need::Table(i, at)),
                    WritePlan::InPlace(offset) => Turn::Done(offset),
                    WritePlan::TableThenData(_) => {
                        self.stage = PlaceStage::Room;
                        Turn::Need(Need::Room)
                    },
                    WritePlan::DataThenTable(fill) | WritePlan::Data(fill) => {
                        self.stage = PlaceStage::Data;
                        Turn::Need(Need::Cluster(fill))
                    },
                }
            },
            PlaceStage::Room => {
                self.stage = PlaceStage::Table;
                Turn::Need(Need::Cluster(Fill::Zeroed))
            },
            PlaceStage::Table => match given {
                Given::Cluster(t) => {
                    self.table = Some(t);
                    self.stage = PlaceStage::Data;
                    let fill = match self.plan {
                        WritePlan::TableThenData(fill) => fill,
                        WritePlan::DataThenTable(fill) => fill,
                        WritePlan::Data(fill) => fill,
                        _ => Fill::Zeroed,
                    };
                    Turn::Need(Need::Cluster(fill))
                },
                _ => Turn::Failed,
            },
            PlaceStage::Data => match given {
                Given::Cluster(d) => {
                    self.data = d;
                    self.stage = PlaceStage::Counted;
                    Turn::Need(Need::SetCount(d, 1))
                },
                _ => Turn::Failed,
            },
            PlaceStage::Counted => match self.plan {
                WritePlan::DataThenTable(_) => {
                    self.stage = PlaceStage::TableLast;
                    Turn::Need(Need::Cluster(Fill::Zeroed))
                },
                _ => {
                    let table = self.table;
                    self.repoint(layout, table)
                },
            },
            PlaceStage::TableLast => match given {
                Given::Cluster(t) => self.repoint(layout, Some(t)),
                _ => Turn::Failed,
            },
            PlaceStage::Settle => {
                let offset: u64 = layout.mapping.geometry.cluster_offset(self.address);
                if self.data > u64::MAX - offset {
                    return Turn::Failed;
                }
                settle(&mut self.counts, self.data + offset)
            },
        }
    }
}

/// How far the end of a cluster's mapping has come.
#[derive(Clone, Copy, Debug, PartialEq, Eq, Structural)]
pub enum DropStage {
    /// It is not known how the cluster is stored.
    Look,
    /// It waits for the count of that cluster of the file.
    Count(u64),
    /// It waits until that cluster is counted so.
    Lowered(u64, u16),
    /// It waits until the storage of that cluster is gone.
    Punched(u64),
    /// Nothing is left.
    Over,
}

/// A cluster of the guest whose storage is given up.
#[derive(Clone, Copy, Debug, PartialEq, Eq, Structural)]
pub struct Dropping {
    pub address: u64,
    pub stage: DropStage,
}

/// The image with no entry for an address.
pub open spec fn unmapped(before: Layout, after: Layout, address: u64) -> bool {
    &&& after.mapping.cached() == before.mapping.cleared(address)
    &&& after.mapping.geometry == before.mapping.geometry
    &&& after.mapping.l1_table@ == before.mapping.l1_table@
    &&& after.mapping.l1_dirty == before.mapping.l1_dirty
    &&& after.mapping.has_backing == before.mapping.has_backing
    &&& after.mapping.tables@.len() == before.mapping.tables@.len()
    &&& after.pools == before.pools
}

/// The same tables are known.
pub open spec fn same_mapping(before: Mapping, after: Mapping) -> bool {
    &&& after.cached() == before.cached()
    &&& after.geometry == before.geometry
    &&& after.l1_table@ == before.l1_table@
    &&& after.l1_dirty == before.l1_dirty
    &&& after.has_backing == before.has_backing
    &&& after.tables@.len() == before.tables@.len()
}

impl Dropping {
    pub fn start(address: u64) -> (r: Dropping)
        ensures
            r == (Dropping { address, stage: DropStage::Look }),
    {
        Dropping { address, stage: DropStage::Look }
    }

    /// What a step comes to, and how far the operation is after it.
    pub open spec fn next(&self, m: Mapping, given: Given) -> (DropStage, Turn) {
        match self.stage {
            DropStage::Look => match m.drop_plan(self.address) {
                Dropped::Invalid => (DropStage::Look, Turn::Failed),
                Dropped::NeedTable(i, at) => (DropStage::Look, Turn::Need(Need::Table(i, at))),
                Dropped::Nothing => (DropStage::Over, Turn::Done(0)),
                Dropped::Zero => (DropStage::Over, Turn::Done(0)),
                Dropped::Compressed(entry) => (DropStage::Over, Turn::Need(Need::Release(entry))),
                Dropped::Plain(c) => (DropStage::Count(c), Turn::Need(Need::Count(c))),
            },
            DropStage::Count(c) => match given {
                Given::Count(n) => if n == 0 {
                    (self.stage, Turn::Failed)
                } else {
                    (
                        DropStage::Lowered(c, (n - 1) as u16),
                        Turn::Need(Need::SetCount(c, (n - 1) as u16)),
                    )
                },
                _ => (self.stage, Turn::Failed),
            },
            DropStage::Lowered(c, n) => if m.drop_plan(self.address) != Dropped::Plain(c) {
                (self.stage, Turn::Failed)
            } else if n == 0 {
                (DropStage::Punched(c), Turn::Need(Need::Punch(c)))
            } else {
                (DropStage::Over, Turn::Done(0))
            },
            DropStage::Punched(c) => (DropStage::Over, Turn::Done(0)),
            DropStage::Over => (DropStage::Over, Turn::Done(0)),
        }
    }

    /// What a step does to the image.
    pub open spec fn changed(&self, before: Layout, after: Layout) -> bool {
        match self.stage {
            DropStage::Look => match before.mapping.drop_plan(self.address) {
                Dropped::Zero => unmapped(before, after, self.address) && after.cached
                    == before.cached,
                Dropped::Compressed(entry) => unmapped(before, after, self.address)
                    && after.cached.entries@ == without(before.cached, entry),
                _ => same_mapping(before.mapping, after.mapping) && after.pools == before.pools
                    && after.cached == before.cached,
            },
            DropStage::Lowered(c, n) => if before.mapping.drop_plan(self.address)
                == Dropped::Plain(c) {
                unmapped(before, after, self.address) && after.cached == before.cached
            } else {
                after == before
            },
            DropStage::Punched(c) => {
                &&& after.mapping == before.mapping
                &&& after.cached == before.cached
                &&& after.pools.unref_clusters@ == before.pools.unref_clusters@.push(c)
                &&& after.pools.avail_clusters@ == before.pools.avail_clusters@
                &&& after.pools.punch_clusters@ == before.pools.punch_clusters@
            },
            _ => after == before,
        }
    }

    /// Takes the operation a step further. A cluster of the file that nothing refers to any more
    /// is given up, and can be used once the file is up to date.
    pub fn deallocate_cluster(&mut self, layout: &mut Layout, given: Given) -> (r: Turn)
        requires
            old(layout).wf(),
        ensures
            final(layout).wf(),
            final(layout).cached.capacity == old(layout).cached.capacity,
            final(self).address == old(self).address,
            (final(self).stage, r) == old(self).next(old(layout).mapping, given),
            old(self).changed(*old(layout), *final(layout)),
    {
        match self.stage {
            DropStage::Look => match layout.mapping.deallocate_cluster(self.address) {
                Dropped::Invalid => Turn::Failed,
                Dropped::NeedTable(i, at) => Turn::Need(Need::Table(i, at)),
                Dropped::Nothing | Dropped::Zero => {
                    self.stage = DropStage::Over;
                    Turn::Done(0)
                },
                Dropped::Compressed(entry) => {
                    layout.cached.forget(entry);
                    self.stage = DropStage::Over;
                    Turn::Need(Need::Release(entry))
                },
                Dropped::Plain(c) => {
                    self.stage = DropStage::Count(c);
                    Turn::Need(Need::Count(c))
                },
            },
            DropStage::Count(c) => {
                let lower: u16 = match given {
                    Given::Count(n) => match refcount::release(n) {
                        Release::Unreferenced => {
                            return Turn::Failed;
                        },
                        Release::Shared(n) => n,
                        Release::Freed => 0,
                    },
                    _ => {
                        return Turn::Failed;
                    },
                };
                self.stage = DropStage::Lowered(c, lower);
                Turn::Need(Need::SetCount(c, lower))
            },
            DropStage::Lowered(c, n) => {
                if !layout.mapping.is_stored_at(self.address, c) {
                    return Turn::Failed;
                }
                layout.mapping.drop_plain(self.address);
                if n == 0 {
                    self.stage = DropStage::Punched(c);
                    Turn::Need(Need::Punch(c))
                } else {
                    self.stage = DropStage::Over;
                    Turn::Done(0)
                }
            },
            DropStage::Punched(c) => {
                layout.pools.unref(c);
                self.stage = DropStage::Over;
                Turn::Done(0)
            },
            DropStage::Over => Turn::Done(0),
        }
    }
}

/// How far it has come that a cluster is marked as zero.
#[derive(Clone, Copy, Debug, PartialEq, Eq, Structural)]
pub enum ZeroStage {
    /// What is stored for the cluster is given up.
    Drop,
    /// It is not known what the mark needs.
    Plan,
    /// It waits for room for a new table.
    Room,
    /// It waits for the cluster of the table.
    Table,
    /// The tables are changed, and counts are left to be set.
    Settle,
}

/// A cluster of the guest that is marked as zero.
pub struct Zeroing {
    pub dropping: Dropping,
    pub stage: ZeroStage,
    /// The counts that are left to be set, in order.
    pub counts: Vec<(u64, u16)>,
}

impl Zeroing {
    pub fn start(address: u64) -> (r: Zeroing)
        ensures
            r.dropping == (Dropping { address, stage: DropStage::Look }),
            r.stage == ZeroStage::Drop,
            r.counts@ == Seq::<(u64, u16)>::empty(),
    {
        Zeroing { dropping: Dropping::start(address), stage: ZeroStage::Drop, counts: Vec::new() }
    }

    /// What the mark needs, once nothing is stored for the cluster, and how far the operation is
    /// then. Nothing is needed where the table of the cluster was changed before.
    pub open spec fn planned(m: Mapping, address: u64) -> Option<(ZeroStage, Turn)> {
        match m.zero_plan(address) {
            ZeroPlan::Invalid => Some((ZeroStage::Plan, Turn::Failed)),
            ZeroPlan::NeedTable(i, at) => Some((ZeroStage::Plan, Turn::Need(Need::Table(i, at)))),
            ZeroPlan::Table => Some(
                if m.cached().contains_key(m.i(address)) {
                    (ZeroStage::Table, Turn::Need(Need::Cluster(Fill::Zeroed)))
                } else {
                    (ZeroStage::Room, Turn::Need(Need::Room))
                },
            ),
            ZeroPlan::Nothing => None,
        }
    }

    /// The cluster is marked, with a new cluster for its table or without.
    pub open spec fn marked(
        &self,
        after: &Self,
        table: Option<u64>,
        before: Layout,
        now: Layout,
        r: Turn,
    ) -> bool {
        let counts = counts_for(before.mapping, self.dropping.address, table);
        &&& pointed(before, now, self.dropping.address, qcow::ZERO_FLAG, table)
        &&& now.cached == before.cached
        &&& after.stage == ZeroStage::Settle
        &&& r == settled(counts, 0)
        &&& after.counts@ == left(counts)
    }

    /// Looks at what the mark needs.
    fn plan(&mut self, layout: &mut Layout) -> (r: Turn)
        requires
            old(layout).wf(),
        ensures
            final(layout).wf(),
            final(layout).cached == old(layout).cached,
            final(self).dropping == old(self).dropping,
            match Self::planned(old(layout).mapping, old(self).dropping.address) {
                Some((stage, turn)) => {
                    &&& *final(layout) == *old(layout)
                    &&& final(self).stage == stage
                    &&& final(self).counts == old(self).counts
                    &&& r == turn
                },
                None => old(self).marked(final(self), None, *old(layout), *final(layout), r),
            },
    {
        let address: u64 = self.dropping.address;
        self.stage = ZeroStage::Plan;
        match layout.mapping.mark_cluster_zero(address) {
            ZeroPlan::Invalid => Turn::Failed,
            ZeroPlan::NeedTable(i, at) => Turn::Need(Need::Table(i, at)),
            ZeroPlan::Table => {
                if layout.mapping.has_table(address) {
                    self.stage = ZeroStage::Table;
                    Turn::Need(Need::Cluster(Fill::Zeroed))
                } else {
                    self.stage = ZeroStage::Room;
                    Turn::Need(Need::Room)
                }
            },
            ZeroPlan::Nothing => {
                self.counts = layout.point(address, qcow::ZERO_FLAG, None);
                self.stage = ZeroStage::Settle;
                settle(&mut self.counts, 0)
            },
        }
    }

    /// The mark can be set, with that cluster for its table.
    pub open spec fn ready(&self, m: Mapping, table: u64) -> bool {
        &&& m.zero_plan(self.dropping.address) is Table
        &&& table != 0
        &&& !m.cached().contains_key(m.i(self.dropping.address)) ==> m.tables@.len()
            < qcow::map::MAX_TABLES
    }

    /// Takes the operation a step further: what is stored for the cluster is given up, and then it
    /// is marked as zero.
    pub fn mark_cluster_zero(&mut self, layout: &mut Layout, given: Given) -> (r: Turn)
        requires
            old(layout).wf(),
        ensures
            final(layout).wf(),
            final(layout).cached.capacity == old(layout).cached.capacity,
            final(self).dropping.address == old(self).dropping.address,
            match old(self).stage {
                ZeroStage::Drop => {
                    let (stage, turn) = old(self).dropping.next(old(layout).mapping, given);
                    &&& final(self).dropping.stage == stage
                    &&& old(self).dropping.changed(*old(layout), *final(layout))
                    &&& if turn is Done {
                        r == Turn::Go && final(self).stage == ZeroStage::Plan
                    } else {
                        r == turn && final(self).stage == ZeroStage::Drop
                    }
                },
                ZeroStage::Plan => match Self::planned(
                    old(layout).mapping,
                    old(self).dropping.address,
                ) {
                    Some((stage, turn)) => {
                        &&& *final(layout) == *old(layout)
                        &&& final(self).stage == stage
                        &&& r == turn
                    },
                    None => old(self).marked(final(self), None, *old(layout), *final(layout), r),
                },
                ZeroStage::Room => {
                    &&& *final(layout) == *old(layout)
                    &&& final(self).stage == ZeroStage::Table
                    &&& r == Turn::Need(Need::Cluster(Fill::Zeroed))
                },
                ZeroStage::Table => match given {
                    Given::Cluster(t) => if old(self).ready(old(layout).mapping, t) {
                        old(self).marked(final(self), Some(t), *old(layout), *final(layout), r)
                    } else {
                        r == Turn::Failed && *final(layout) == *old(layout)
                    },
                    _ => r == Turn::Failed && *final(layout) == *old(layout),
                },
                ZeroStage::Settle => {
                    &&& *final(layout) == *old(layout)
                    &&& final(self).stage == ZeroStage::Settle
                    &&& r == settled(old(self).counts@, 0)
                    &&& final(self).counts@ == left(old(self).counts@)
                },
            },
    {
        match self.stage {
            ZeroStage::Drop => {
                let turn = self.dropping.deallocate_cluster(layout, given);
                match turn {
                    Turn::Done(_) => {
                        self.stage = ZeroStage::Plan;
                        Turn::Go
                    },
                    _ => turn,
                }
            },
            ZeroStage::Plan => self.plan(layout),
            ZeroStage::Room => {
                self.stage = ZeroStage::Table;
                Turn::Need(Need::Cluster(Fill::Zeroed))
            },
            ZeroStage::Table => {
                let address: u64 = self.dropping.address;
                let t: u64 = match given {
                    Given::Cluster(t) => t,
                    _ => {
                        return Turn::Failed;
                    },
                };
                let in_memory = layout.mapping.has_table(address);
                match layout.mapping.mark_cluster_zero(address) {
                    ZeroPlan::Table => {},
                    _ => {
                        return Turn::Failed;
                    },
                }
                if t == 0 || (!in_memory && layout.mapping.tables.len() >= qcow::map::MAX_TABLES) {
                    return Turn::Failed;
                }
                proof {
                    qcow::map::flag_bits();
                }
                self.counts = layout.point(address, qcow::ZERO_FLAG, Some(t));
                self.stage = ZeroStage::Settle;
                settle(&mut self.counts, 0)
            },
            ZeroStage::Settle => settle(&mut self.counts, 0),
        }
    }
}

/// The payload of a compressed cluster that is released: each cluster of the file that it lies in
/// loses a reference.
pub struct Releasing {
    pub hosts: Vec<u64>,
    /// How many of them have lost it.
    pub done: usize,
    /// It waits for the count of the next.
    pub asked: bool,
}

impl Releasing {
    pub open spec fn wf(&self) -> bool {
        self.done <= self.hosts@.len() && (self.asked ==> self.done < self.hosts@.len())
    }

    /// Starts with the entry of the compressed cluster.
    pub fn start(entry: u64, cluster_bits: u32) -> (r: Releasing)
        requires
            qcow::MIN_CLUSTER_BITS <= cluster_bits <= qcow::MAX_CLUSTER_BITS,
        ensures
            r.wf(),
            r.hosts@ == geometry::host_clusters(entry, cluster_bits),
            r.done == 0,
            !r.asked,
    {
        Releasing {
            hosts: geometry::compressed_host_clusters(entry, cluster_bits),
            done: 0,
            asked: false,
        }
    }

    /// What a step comes to.
    pub open spec fn next(&self, given: Given) -> Turn {
        if !self.asked {
            if self.done == self.hosts@.len() {
                Turn::Done(0)
            } else {
                Turn::Need(Need::Count(self.hosts@[self.done as int]))
            }
        } else {
            match given {
                Given::Count(n) => if n == 0 {
                    Turn::Go
                } else {
                    Turn::Need(Need::SetCount(self.hosts@[self.done as int], (n - 1) as u16))
                },
                _ => Turn::Failed,
            }
        }
    }

    /// Takes the release a step further. A cluster that nothing refers to keeps its storage until
    /// the file does not refer to it either.
    pub fn unref_compressed_cluster(&mut self, pools: &mut Pools, given: Given) -> (r: Turn)
        requires
            old(self).wf(),
        ensures
            final(self).wf(),
            final(self).hosts == old(self).hosts,
            r == old(self).next(given),
            final(self).done == (if old(self).asked && given is Count {
                old(self).done + 1
            } else {
                old(self).done as int
            }),
            final(self).asked == (if old(self).asked {
                !(given is Count)
            } else {
                old(self).done < old(self).hosts@.len()
            }),
            final(pools).avail_clusters@ == old(pools).avail_clusters@,
            if old(self).asked && given == Given::Count(1) {
                let host = old(self).hosts@[old(self).done as int];
                &&& final(pools).punch_clusters@ == old(pools).punch_clusters@.push(host)
                &&& final(pools).unref_clusters@ == old(pools).unref_clusters@.push(host)
            } else {
                &&& final(pools).punch_clusters@ == old(pools).punch_clusters@
                &&& final(pools).unref_clusters@ == old(pools).unref_clusters@
            },
    {
        if !self.asked {
            if self.done == self.hosts.len() {
                return Turn::Done(0);
            }
            self.asked = true;
            return Turn::Need(Need::Count(self.hosts[self.done]));
        }
        match given {
            Given::Count(n) => {
                let len: usize = self.hosts.len();
                let host: u64 = self.hosts[self.done];
                assert(self.done < len);
                self.done = self.done + 1;
                self.asked = false;
                match pools.unref_compressed_cluster(host, n) {
                    Some(lower) => Turn::Need(Need::SetCount(host, lower)),
                    None => Turn::Go,
                }
            },
            _ => Turn::Failed,
        }
    }
}

/// A count that is set, with all that follows from it.
pub struct Counting {
    pub work: Assignments,
    pub step: Step,
}

impl Counting {
    /// What is stored next is the assignment that is under way.
    pub open spec fn wf(&self) -> bool {
        &&& self.work.wf()
        &&& match self.step {
            Step::Store(a, n) => self.work.current == (a, n),
            Step::StoreWithBlock(a, n, _) => self.work.current == (a, n),
            _ => true,
        }
    }

    pub fn start(address: u64, refcount: u16) -> (r: Counting)
        ensures
            r.wf(),
            r.work.pending@ == Seq::<(u64, u16)>::empty(),
            r.work.current == (address, refcount),
            r.work.dropped@ == Seq::<u64>::empty(),
            r.step == Step::Store(address, refcount),
    {
        let (work, step) = Assignments::start(address, refcount);
        Counting { work, step }
    }

    /// The count that is stored with what is given, and the cluster that its block goes to.
    pub open spec fn storing(&self, given: Given) -> Option<(u64, u16, Option<u64>)> {
        match (self.step, given) {
            (Step::Store(a, n), _) => Some((a, n, None)),
            (Step::ReadBlock(_), _) => Some((self.work.current.0, self.work.current.1, None)),
            (Step::FindBlock, Given::Cluster(b)) => Some(
                (self.work.current.0, self.work.current.1, Some(b)),
            ),
            (Step::StoreWithBlock(a, n, b), _) => Some((a, n, Some(b))),
            _ => None,
        }
    }

    /// The assignments that are left, with the one for a cluster that a block goes to.
    pub open spec fn pending_with(&self, given: Given) -> Seq<(u64, u16)> {
        match (self.step, given) {
            (Step::FindBlock, Given::Cluster(b)) => self.work.pending@.push((b, 1u16)),
            _ => self.work.pending@,
        }
    }

    /// What a step comes to, where storing the count of `address` went so.
    pub open spec fn turn_of(refs: RefCounts, address: u64, outcome: Option<Outcome>) -> Turn {
        match outcome {
            None => Turn::Failed,
            Some(Outcome::NeedBlock(at)) => Turn::Need(
                Need::Block(refs.block_of(address) as usize, at),
            ),
            Some(Outcome::NeedNewBlock) => Turn::Need(Need::Cluster(Fill::Zeroed)),
            Some(_) => Turn::Go,
        }
    }

    /// Takes the assignment a step further. Setting a count can move the block that it is in: the
    /// cluster that the block goes to is counted, and so is that which it leaves; when all is set,
    /// the clusters that blocks have left can be used later.
    pub fn set_cluster_refcount(
        &mut self,
        refs: &mut RefCounts,
        pools: &mut Pools,
        given: Given,
    ) -> (r: Turn)
        requires
            old(self).wf(),
            old(refs).wf(),
        ensures
            final(self).wf(),
            final(refs).wf(),
            final(refs).same_shape(old(refs)),
            final(pools).avail_clusters@ == old(pools).avail_clusters@,
            final(pools).punch_clusters@ == old(pools).punch_clusters@,
            match old(self).storing(given) {
                Some((a, n, block)) => {
                    let outcome = old(refs).setting(a, block);
                    &&& final(pools).unref_clusters@ == old(pools).unref_clusters@
                    &&& r == Self::turn_of(*old(refs), a, outcome)
                    &&& match outcome {
                        Some(Outcome::Stored) | Some(Outcome::StoredAndMoved(_)) => {
                            let moved = if let Some(Outcome::StoredAndMoved(b)) = outcome {
                                Some(b)
                            } else {
                                None
                            };
                            let known = old(self).work.dropped@;
                            let new = moved is Some && !known.contains(moved->0);
                            let pending = old(self).pending_with(given) + (if new {
                                seq![(moved->0, 0u16)]
                            } else {
                                Seq::<(u64, u16)>::empty()
                            });
                            &&& final(refs).counted(a) == Counted::Count(n)
                            &&& forall|other: u64|
                                old(refs).cluster(other) != old(refs).cluster(a) ==> #[trigger]
                                    final(refs).counted(other) == old(refs).counted(other)
                            &&& old(refs).stored(final(refs), a, block)
                            &&& final(self).work.dropped@ == (if new {
                                known.push(moved->0)
                            } else {
                                known
                            })
                            &&& if pending.len() == 0 {
                                final(self).step == Step::Done && final(self).work.pending@
                                    == pending
                            } else {
                                &&& final(self).step == Step::Store(
                                    pending.last().0,
                                    pending.last().1,
                                )
                                &&& final(self).work.pending@ == pending.drop_last()
                                &&& final(self).work.current == pending.last()
                            }
                        },
                        _ => {
                            &&& *final(refs) == *old(refs)
                            &&& final(self).work.pending@ == old(self).pending_with(given)
                            &&& final(self).work.dropped@ == old(self).work.dropped@
                            &&& final(self).work.current == (a, n)
                            &&& final(self).step == (match outcome {
                                Some(Outcome::NeedBlock(at)) => Step::ReadBlock(at),
                                Some(_) => Step::FindBlock,
                                None => old(self).step,
                            })
                        },
                    }
                },
                None => {
                    &&& *final(refs) == *old(refs)
                    &&& if old(self).step == Step::Done {
                        &&& r == Turn::Done(0)
                        &&& final(pools).unref_clusters@ == old(pools).unref_clusters@ + old(
                            self,
                        ).work.dropped@
                        &&& final(self).work.dropped@ == Seq::<u64>::empty()
                        &&& final(self).work.pending@ == old(self).work.pending@
                        &&& final(self).step == Step::Done
                    } else {
                        &&& r == Turn::Failed
                        &&& *final(self) == *old(self)
                        &&& final(pools).unref_clusters@ == old(pools).unref_clusters@
                    }
                },
            },
    {
        let (address, count, block) = match self.step {
            Step::Store(a, n) => (a, n, None),
            Step::ReadBlock(_) => (self.work.current.0, self.work.current.1, None),
            Step::FindBlock => match given {
                Given::Cluster(b) => {
                    self.work.block_found(b);
                    (self.work.current.0, self.work.current.1, Some(b))
                },
                _ => {
                    return Turn::Failed;
                },
            },
            Step::StoreWithBlock(a, n, b) => (a, n, Some(b)),
            Step::Done => {
                pools.unref_all(&self.work.dropped);
                self.work.dropped = Vec::new();
                return Turn::Done(0);
            },
        };
        let index = refs.block_index(address);
        let outcome = match refs.set_cluster_refcount(address, count, block) {
            Some(o) => o,
            None => {
                return Turn::Failed;
            },
        };
        let ghost before = self.work;
        self.step = self.work.outcome(outcome);
        proof {
            if let Outcome::StoredAndMoved(b) = outcome {
                let pending = before.pending@;
                if !before.dropped@.contains(b) {
                    assert(pending + seq![(b, 0u16)] =~= pending.push((b, 0u16)));
                } else {
                    assert(pending + Seq::<(u64, u16)>::empty() =~= pending);
                }
            } else {
                assert(before.pending@ + Seq::<(u64, u16)>::empty() =~= before.pending@);
            }
        }
        match outcome {
            Outcome::NeedBlock(at) => match index {
                Some(b) => Turn::Need(Need::Block(b, at)),
                None => Turn::Failed,
            },
            Outcome::NeedNewBlock => Turn::Need(Need::Cluster(Fill::Zeroed)),
            _ => Turn::Go,
        }
    }
}

/// Looks up the count of each cluster of a file in turn.
pub struct Survey {
    pub file_size: u64,
    pub cluster_size: u64,
    pub clusters: u64,
    /// The counts of the first clusters.
    pub counts: Vec<u16>,
}

impl Survey {
    pub open spec fn wf(&self) -> bool {
        &&& self.cluster_size > 0
        &&& self.clusters == geometry::ceil_div(self.file_size as int, self.cluster_size as int)
        &&& self.counts@.len() <= self.clusters
    }

    /// Starts for a file of that size.
    pub fn start(file_size: u64, cluster_size: u64) -> (r: Survey)
        requires
            cluster_size > 0,
        ensures
            r.wf(),
            r.file_size == file_size,
            r.cluster_size == cluster_size,
            r.counts@ == Seq::<u16>::empty(),
    {
        proof {
            geometry::ceil_div_is_least(file_size as int, cluster_size as int, 0);
            vstd::arithmetic::div_mod::lemma_div_pos_is_pos(file_size as int, cluster_size as int);
        }
        Survey {
            file_size,
            cluster_size,
            clusters: geometry::div_ceil(file_size, cluster_size),
            counts: Vec::new(),
        }
    }

    /// The offset of a cluster.
    pub open spec fn offset(&self, i: int) -> u64 {
        (i * self.cluster_size) as u64
    }

    /// Counts as far as the blocks in memory go. It is over when every cluster of the file is
    /// counted.
    pub fn survey(&mut self, refs: &RefCounts) -> (r: Turn)
        requires
            old(self).wf(),
            refs.wf(),
        ensures
            final(self).wf(),
            final(self).file_size == old(self).file_size,
            final(self).cluster_size == old(self).cluster_size,
            old(self).counts@.len() <= final(self).counts@.len(),
            old(self).counts@ == final(self).counts@.take(old(self).counts@.len() as int),
            forall|i: int|
                old(self).counts@.len() <= i < final(self).counts@.len() ==> refs.counted(
                    old(self).offset(i),
                ) == Counted::Count(#[trigger] final(self).counts@[i]),
            ({
                let n = final(self).counts@.len() as int;
                if n == final(self).clusters {
                    r == Turn::Done(0)
                } else {
                    match refs.counted(old(self).offset(n)) {
                        Counted::Invalid => r == Turn::Failed,
                        Counted::NeedBlock(b, at) => r == Turn::Need(Need::Block(b, at)),
                        Counted::Count(_) => false,
                    }
                }
            }),
    {
        assert(self.counts@ =~= self.counts@.take(self.counts@.len() as int));
        while (self.counts.len() as u64) < self.clusters
            invariant
                self.wf(),
                refs.wf(),
                self.file_size == old(self).file_size,
                self.cluster_size == old(self).cluster_size,
                old(self).counts@.len() <= self.counts@.len(),
                old(self).counts@ == self.counts@.take(old(self).counts@.len() as int),
                forall|i: int|
                    old(self).counts@.len() <= i < self.counts@.len() ==> refs.counted(
                        old(self).offset(i),
                    ) == Counted::Count(#[trigger] self.counts@[i]),
            decreases self.clusters - self.counts@.len(),
        {
            let i: u64 = self.counts.len() as u64;
            proof {
                geometry::ceil_div_is_least(
                    self.file_size as int,
                    self.cluster_size as int,
                    i as int,
                );
                assert(0 <= i * self.cluster_size) by (nonlinear_arith)
                    requires
                        0 <= i,
                        0 <= self.cluster_size,
                ;
            }
            match refs.get_cluster_refcount(i * self.cluster_size) {
                Counted::Invalid => {
                    return Turn::Failed;
                },
                Counted::NeedBlock(b, at) => {
                    return Turn::Need(Need::Block(b, at));
                },
                Counted::Count(n) => {
                    let ghost before = self.counts@;
                    self.counts.push(n);
                    assert(self.counts@.take(old(self).counts@.len() as int) =~= before.take(
                        old(self).counts@.len() as int,
                    ));
                },
            }
        }
        Turn::Done(0)
    }

    /// The clusters that nothing refers to, once all are counted.
    pub fn avail_clusters(&self) -> (r: Vec<u64>)
        requires
            self.wf(),
        ensures
            r@ == open::unreferenced(
                self.counts@,
                self.counts@.len() as int,
                self.cluster_size as int,
            ),
    {
        proof {
            geometry::ceil_div_is_least(
                self.file_size as int,
                self.cluster_size as int,
                self.counts@.len() - 1,
            );
        }
        open::find_avail_clusters(&self.counts, self.cluster_size)
    }
}

/// Once the tables were changed, the write's address is stored where the operation says, and every
/// other cluster of the guest is stored where it was.
pub proof fn a_placed_write_is_found(
    p: Placing,
    after: Placing,
    table: Option<u64>,
    before: Layout,
    now: Layout,
    r: Turn,
    other: u64,
)
    requires
        before.wf(),
        now.wf(),
        p.ready(before.mapping, table),
        p.repointed(&after, table, before, now, r),
    ensures
        now.mapping.lookup(p.address) == Lookup::Found(ClusterData::Plain(p.end(before.mapping))),
        !qcow::map::same_cluster(before.mapping.geometry, p.address, other)
            ==> now.mapping.lookup(other) == before.mapping.lookup(other),
        r matches Turn::Done(offset) ==> offset == p.end(before.mapping),
        contents::remapped(before.mapping, now.mapping, p.address, p.data, table),
        contents::needs_cluster(
            before.mapping.write_plan(p.address, p.overwrite_len),
            fill_of(p.plan),
        ),
{
    qcow::map::a_written_cluster_is_plain(
        before.mapping,
        now.mapping,
        p.address,
        p.data,
        p.address,
    );
    qcow::map::setting_an_entry_is_local(
        before.mapping,
        now.mapping,
        p.address,
        p.data,
        other,
    );
}

/// Once a cluster was marked it reads as zeroes, and every other cluster of the guest is stored
/// where it was.
pub proof fn a_marked_cluster_is_zero(
    z: Zeroing,
    after: Zeroing,
    table: Option<u64>,
    before: Layout,
    now: Layout,
    r: Turn,
    other: u64,
)
    requires
        before.wf(),
        now.wf(),
        before.mapping.zero_plan(z.dropping.address) is Table
            || before.mapping.zero_plan(z.dropping.address) is Nothing,
        z.marked(&after, table, before, now, r),
    ensures
        now.mapping.lookup(z.dropping.address) == Lookup::Found(ClusterData::Zero),
        contents::remapped(
            before.mapping,
            now.mapping,
            z.dropping.address,
            qcow::ZERO_FLAG,
            table,
        ),
        !qcow::map::same_cluster(before.mapping.geometry, z.dropping.address, other)
            ==> now.mapping.lookup(other) == before.mapping.lookup(other),
{
    let address = z.dropping.address;
    qcow::map::a_zeroed_cluster_is_zero(before.mapping, now.mapping, address, address);
    qcow::map::setting_an_entry_is_local(
        before.mapping,
        now.mapping,
        address,
        qcow::ZERO_FLAG,
        other,
    );
}

/// A cluster that is dropped is stored nowhere afterwards. Its storage is given up only after its
/// count was lowered, and can be used only after that.
pub proof fn storage_outlives_its_mapping(d: Dropping, before: Layout, after: Layout, given: Given)
    requires
        before.wf(),
        after.wf(),
        d.changed(before, after),
    ensures
        d.next(before.mapping, given).1 matches Turn::Need(Need::Punch(c)) ==> {
            &&& d.stage == DropStage::Lowered(c, 0)
            &&& before.mapping.drop_plan(d.address) == Dropped::Plain(c)
            &&& after.mapping.lookup(d.address) == Lookup::Found(ClusterData::Unallocated)
            &&& after.pools == before.pools
        },
        after.pools.unref_clusters@ != before.pools.unref_clusters@ ==> d.stage is Punched,
{
    if let DropStage::Lowered(c, n) = d.stage {
        if before.mapping.drop_plan(d.address) == Dropped::Plain(c) {
            qcow::map::a_dropped_cluster_is_unallocated(
                before.mapping,
                after.mapping,
                d.address,
                d.address,
            );
        }
    }
}

/// A write begins with what its plan lacks: a table that is not in memory is read, a cluster that is there
/// is written where it is, and a cluster for the data starts out with what the plan says; where there is
/// no table, room for one comes before everything else.
pub proof fn writes_ask_for_what_they_lack(plan: WritePlan)
    ensures
        begun(plan).1 is Failed <==> plan is Invalid,
        plan matches WritePlan::NeedTable(i, at) ==> begun(plan) == (
            PlaceStage::Plan,
            Turn::Need(Need::Table(i, at)),
        ),
        plan matches WritePlan::InPlace(at) ==> begun(plan).1 == Turn::Done(at),
        begun(plan).1 matches Turn::Done(at) ==> plan == WritePlan::InPlace(at),
        begun(plan).1 == Turn::Need(Need::Room) <==> plan is TableThenData,
        begun(plan).1 matches Turn::Need(Need::Cluster(fill)) ==> begun(plan).0 is Data && (plan
            == WritePlan::Data(fill) || plan == WritePlan::DataThenTable(fill)),
        plan == WritePlan::TableThenData(fill_of(plan)) || plan == WritePlan::DataThenTable(
            fill_of(plan),
        ) || plan == WritePlan::Data(fill_of(plan)) || fill_of(plan) is Zeroed,
{
}

/// Counts are set in order, each once, and an operation is over when none is left.
pub proof fn counts_are_set_in_order(counts: Seq<(u64, u16)>, end: u64)
    ensures
        counts.len() == 0 ==> settled(counts, end) == Turn::Done(end),
        settled(counts, end) matches Turn::Done(at) ==> counts.len() == 0 && at == end,
        settled(counts, end) matches Turn::Need(Need::SetCount(a, n)) ==> seq![(a, n)] + left(counts)
            == counts,
        settled(counts, end) is Done || settled(counts, end) is Need,
        counts.len() > 0 ==> left(counts).len() == counts.len() - 1,
{
    if counts.len() > 0 {
        assert(seq![counts[0]] + left(counts) =~= counts);
    }
}

/// A cluster of the file that is dropped has its count lowered by one, and its storage goes exactly where
/// that was the last reference; one that is not counted is not dropped. What had no storage of its own
/// is dropped at once, and a compressed cluster by the release of its payload.
pub proof fn a_drop_takes_one_reference(d: Dropping, m: Mapping, given: Given, c: u64, n: u16)
    ensures
        d.stage is Look ==> match m.drop_plan(d.address) {
            Dropped::Plain(at) => d.next(m, given) == (
                DropStage::Count(at),
                Turn::Need(Need::Count(at)),
            ),
            Dropped::Compressed(e) => d.next(m, given) == (
                DropStage::Over,
                Turn::Need(Need::Release(e)),
            ),
            Dropped::NeedTable(i, at) => d.next(m, given) == (
                DropStage::Look,
                Turn::Need(Need::Table(i, at)),
            ),
            Dropped::Invalid => d.next(m, given).1 is Failed,
            _ => d.next(m, given).0 is Over && d.next(m, given).1 is Done,
        },
        d.stage == DropStage::Count(c) ==> match d.next(m, Given::Count(n)).1 {
            Turn::Need(Need::SetCount(at, k)) => at == c && k + 1 == n && d.next(
                m,
                Given::Count(n),
            ).0 == DropStage::Lowered(c, k),
            turn => turn is Failed && n == 0,
        },
        d.stage == DropStage::Lowered(c, n) && m.drop_plan(d.address) == Dropped::Plain(c) ==> (
        d.next(m, given).1 == Turn::Need(Need::Punch(c)) <==> n == 0),
        d.stage == DropStage::Lowered(c, n) && m.drop_plan(d.address) == Dropped::Plain(c) && n > 0
            ==> d.next(m, given).1 is Done,
        d.stage == DropStage::Lowered(c, n) && m.drop_plan(d.address) != Dropped::Plain(c)
            ==> d.next(m, given).1 is Failed,
        d.stage == DropStage::Punched(c) ==> d.next(m, given).1 is Done,
{
}

/// Each cluster that a payload touches loses one reference, one cluster after the other, unless it has
/// none; the release is over when all of them have.
pub proof fn a_release_takes_one_reference_each(r: Releasing, given: Given, n: u16)
    requires
        r.wf(),
    ensures
        !r.asked ==> (r.next(given) is Done <==> r.done == r.hosts@.len()),
        !r.asked && r.done < r.hosts@.len() ==> r.next(given) == Turn::Need(
            Need::Count(r.hosts@[r.done as int]),
        ),
        r.asked && n > 0 ==> (r.next(Given::Count(n)) matches Turn::Need(Need::SetCount(at, k)) && at
            == r.hosts@[r.done as int] && k + 1 == n),
        r.asked && n == 0 ==> r.next(Given::Count(n)) is Go,
{
}

} // verus!
