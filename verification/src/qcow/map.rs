//! Where the clusters of the guest are stored.
//!
//! The L1 table and some of the L2 tables are held in memory. An operation that needs a table
//! that is not says so; once the table was read, the operation is tried again. Clusters of the
//! file are found, filled and counted outside.

use vstd::prelude::*;

use crate::qcow;
use crate::qcow::geometry;
use crate::qcow::geometry::Geometry;

verus! {

/// How many L2 tables are held in memory.
pub const MAX_TABLES: usize = 100;

/// How the data of a cluster of the guest is stored.
#[derive(Clone, Copy, Debug, PartialEq, Eq, Structural)]
pub enum ClusterData {
    /// It is not: the cluster reads as zeroes, or as the backing file.
    Unallocated,
    /// At this offset of the file.
    Plain(u64),
    /// Compressed. The number is the L2 entry, which says where and how long.
    Compressed(u64),
    /// As a zero cluster: it reads as zeroes, whatever a backing file holds.
    Zero,
}

/// The outcome of looking up an address.
#[derive(Clone, Copy, Debug, PartialEq, Eq, Structural)]
pub enum Lookup {
    /// The address is not part of the image.
    Invalid,
    /// The L2 table for that L1 index has to be read, at that offset of the file.
    NeedTable(usize, u64),
    Found(ClusterData),
}

/// An L2 table in memory.
#[derive(Debug)]
pub struct L2Table {
    pub l1_index: usize,
    pub values: Vec<u64>,
    pub dirty: bool,
}

/// What an L2 table holds.
#[verifier::ext_equal]
pub struct TableView {
    pub values: Seq<u64>,
    pub dirty: bool,
}

/// An entry that points at a cluster of the file: no flag of it is set.
pub open spec fn is_plain(entry: u64) -> bool {
    entry != 0 && entry & qcow::TABLE_OFFSET_MASK == entry
}

/// An entry as tables in memory hold it.
pub open spec fn entry_wf(entry: u64) -> bool {
    entry == 0 || entry & qcow::COMPRESSED_FLAG != 0 || entry == qcow::ZERO_FLAG || is_plain(entry)
}

/// What `entry` says of the byte at `offset` of its cluster. That a cluster is compressed is looked
/// at first: the low bits of such an entry are part of a byte offset, so the bit that marks a zero
/// cluster means nothing there.
pub open spec fn entry_data(entry: u64, offset: int) -> ClusterData {
    if entry == 0 {
        ClusterData::Unallocated
    } else if entry & qcow::COMPRESSED_FLAG != 0 {
        ClusterData::Compressed(entry)
    } else if entry & qcow::ZERO_FLAG != 0 {
        ClusterData::Zero
    } else {
        ClusterData::Plain((entry + offset) as u64)
    }
}

/// The entry that a table in memory holds for an entry of the file.
pub open spec fn decoded(raw: u64) -> u64 {
    if raw & qcow::COMPRESSED_FLAG != 0 {
        raw
    } else if raw & qcow::ZERO_FLAG != 0 {
        qcow::ZERO_FLAG
    } else {
        raw & qcow::TABLE_OFFSET_MASK
    }
}

/// What is decoded is an entry as tables in memory hold it.
pub proof fn decoded_wf(raw: u64)
    ensures
        entry_wf(decoded(raw)),
{
    let m = raw & 0x00ff_ffff_ffff_fe00u64;
    assert(m & 0x00ff_ffff_ffff_fe00u64 == m) by (bit_vector)
        requires
            m == raw & 0x00ff_ffff_ffff_fe00u64,
    ;
}

/// A plain entry has room for an offset, and is neither compressed nor zero.
pub proof fn plain_bounds(entry: u64)
    requires
        is_plain(entry),
    ensures
        512 <= entry <= 0x00ff_ffff_ffff_fe00,
        entry & qcow::COMPRESSED_FLAG == 0,
        entry & qcow::ZERO_FLAG == 0,
{
    assert(entry & 0x00ff_ffff_ffff_fe00u64 == entry && entry != 0 ==> 512 <= entry
        <= 0x00ff_ffff_ffff_fe00u64 && entry & 0x4000_0000_0000_0000u64 == 0 && entry & 1u64 == 0)
        by (bit_vector);
}

/// The flags of the entries that are no addresses.
pub proof fn flag_bits()
    ensures
        qcow::ZERO_FLAG & qcow::COMPRESSED_FLAG == 0,
        qcow::ZERO_FLAG & qcow::ZERO_FLAG != 0,
{
    assert(1u64 & 0x4000_0000_0000_0000u64 == 0) by (bit_vector);
    assert(1u64 & 1u64 != 0) by (bit_vector);
}

/// Decodes the entries of an L2 table as they were read.
pub fn read_l2_cluster(raw: &Vec<u64>) -> (r: Vec<u64>)
    ensures
        r@ == Seq::new(raw@.len(), |i: int| decoded(raw@[i])),
        forall|i: int| 0 <= i < r@.len() ==> entry_wf(#[trigger] r@[i]),
{
    let mut values: Vec<u64> = Vec::new();
    let mut i: usize = 0;
    while i < raw.len()
        invariant
            i <= raw@.len(),
            values@ =~= Seq::new(i as nat, |j: int| decoded(raw@[j])),
            forall|j: int| 0 <= j < values@.len() ==> entry_wf(#[trigger] values@[j]),
        decreases raw@.len() - i,
    {
        let entry: u64 = raw[i];
        proof {
            decoded_wf(entry);
        }
        if entry & qcow::COMPRESSED_FLAG != 0 {
            values.push(entry);
        } else if entry & qcow::ZERO_FLAG != 0 {
            // Storage that was set aside for a zero cluster is not kept track of.
            values.push(qcow::ZERO_FLAG);
        } else {
            values.push(entry & qcow::TABLE_OFFSET_MASK);
        }
        i = i + 1;
    }
    values
}

/// An entry as the file has it: the cluster of a plain one is marked as used, which a compressed one
/// must never be.
pub open spec fn stored(entry: u64) -> u64 {
    if entry == 0 || entry == qcow::ZERO_FLAG {
        entry
    } else if entry & qcow::COMPRESSED_FLAG != 0 {
        entry & !qcow::CLUSTER_USED_FLAG
    } else {
        entry | qcow::CLUSTER_USED_FLAG
    }
}

/// The entries of a table as the file has them.
pub fn stored_entries(values: &Vec<u64>) -> (r: Vec<u64>)
    ensures
        r@ == Seq::new(values@.len(), |i: int| stored(values@[i])),
{
    let mut out: Vec<u64> = Vec::new();
    let mut i: usize = 0;
    while i < values.len()
        invariant
            i <= values@.len(),
            out@ =~= Seq::new(i as nat, |j: int| stored(values@[j])),
        decreases values@.len() - i,
    {
        let entry: u64 = values[i];
        if entry == 0 || entry == qcow::ZERO_FLAG {
            out.push(entry);
        } else if entry & qcow::COMPRESSED_FLAG != 0 {
            out.push(entry & !qcow::CLUSTER_USED_FLAG);
        } else {
            out.push(entry | qcow::CLUSTER_USED_FLAG);
        }
        i = i + 1;
    }
    out
}

/// A table that is written and read again is the same table. A compressed entry loses the mark that
/// it must not have, if it came with it.
pub proof fn tables_read_back(entry: u64)
    requires
        entry_wf(entry),
    ensures
        entry & qcow::COMPRESSED_FLAG == 0 ==> decoded(stored(entry)) == entry,
        entry & qcow::COMPRESSED_FLAG != 0 ==> decoded(stored(entry)) == entry
            & !qcow::CLUSTER_USED_FLAG,
{
    flag_bits();
    if entry & qcow::COMPRESSED_FLAG == 0 {
        entries_survive_the_used_flag(entry);
    } else {
        assert(entry & 0x4000_0000_0000_0000u64 != 0 ==> (entry & !0x8000_0000_0000_0000u64)
            & 0x4000_0000_0000_0000u64 != 0 && entry != 0 && entry != 1) by (bit_vector);
    }
}

/// A compressed entry is one whatever its other bits are, and no plain or zero entry is.
pub proof fn compressed_comes_before_zero(entry: u64, offset: int)
    requires
        entry & qcow::COMPRESSED_FLAG != 0,
    ensures
        entry_data(entry, offset) == ClusterData::Compressed(entry),
        entry_data(entry | qcow::ZERO_FLAG, offset) == ClusterData::Compressed(
            entry | qcow::ZERO_FLAG,
        ),
        decoded(entry) == entry,
{
    assert(entry & 0x4000_0000_0000_0000u64 != 0 ==> entry != 0 && (entry | 1u64)
        & 0x4000_0000_0000_0000u64 != 0 && entry | 1u64 != 0) by (bit_vector);
}

/// Reading an entry of the file back gives what was meant, whether or not the flag that marks a
/// cluster as used goes with it.
pub proof fn entries_survive_the_used_flag(entry: u64)
    requires
        entry_wf(entry),
        entry & qcow::COMPRESSED_FLAG == 0,
    ensures
        decoded(entry) == entry,
        decoded(entry | qcow::CLUSTER_USED_FLAG) == entry,
{
    flag_bits();
    let m = 0x00ff_ffff_ffff_fe00u64;
    assert(entry & 0x4000_0000_0000_0000u64 == 0 ==> (entry | 0x8000_0000_0000_0000u64)
        & 0x4000_0000_0000_0000u64 == 0) by (bit_vector);
    assert((entry | 0x8000_0000_0000_0000u64) & 1u64 == entry & 1u64) by (bit_vector);
    assert((entry | 0x8000_0000_0000_0000u64) & m == entry & m) by (bit_vector)
        requires
            m == 0x00ff_ffff_ffff_fe00u64,
    ;
    assert(0u64 & m == 0) by (bit_vector);
    assert(0u64 & 1u64 == 0) by (bit_vector);
    if is_plain(entry) {
        plain_bounds(entry);
    }
}

/// The table at position `i` is the one for L1 index `k`.
pub open spec fn is_at(ts: Seq<L2Table>, i: int, k: int) -> bool {
    0 <= i < ts.len() && ts[i].l1_index == k
}

/// The tables by L1 index.
pub open spec fn tables_of(ts: Seq<L2Table>) -> Map<int, TableView> {
    Map::new(
        |k: int| exists|i: int| is_at(ts, i, k),
        |k: int|
            {
                let i = choose|i: int| is_at(ts, i, k);
                TableView { values: ts[i].values@, dirty: ts[i].dirty }
            },
    )
}

/// What storing a new entry asks for.
#[derive(Debug)]
pub struct Updated {
    /// The counts to set, in order.
    pub refcounts: Vec<(u64, u16)>,
    /// The clusters that nothing refers to any more.
    pub unref: Vec<u64>,
}

/// What a newly allocated cluster starts out with.
#[derive(Clone, Copy, Debug, PartialEq, Eq, Structural)]
pub enum Fill {
    /// Zeroes: it held none before, or every byte of it is about to be written.
    Zeroed,
    /// The contents of the backing file from that address on.
    Backing(u64),
    /// The contents of the compressed cluster of that entry.
    Decompress(u64),
}

/// What a write needs.
#[derive(Clone, Copy, Debug, PartialEq, Eq, Structural)]
pub enum WritePlan {
    /// The address is not part of the image.
    Invalid,
    /// The L2 table for that L1 index has to be read, at that offset of the file.
    NeedTable(usize, u64),
    /// Nothing: the data goes to that offset of the file.
    InPlace(u64),
    /// A cluster for a new L2 table, and then one for the data.
    TableThenData(Fill),
    /// A cluster for the data, and then one for the L2 table, which is clean and must not be
    /// overwritten.
    DataThenTable(Fill),
    /// A cluster for the data.
    Data(Fill),
}

/// What making a cluster a zero cluster needs.
#[derive(Clone, Copy, Debug, PartialEq, Eq, Structural)]
pub enum ZeroPlan {
    Invalid,
    NeedTable(usize, u64),
    /// A cluster for the L2 table.
    Table,
    Nothing,
}

/// What dropping a cluster's mapping leaves to do.
#[derive(Clone, Copy, Debug, PartialEq, Eq, Structural)]
pub enum Dropped {
    Invalid,
    NeedTable(usize, u64),
    /// Nothing was stored.
    Nothing,
    /// The mapping is gone; the payload of that entry has to be released.
    Compressed(u64),
    /// The mapping is gone; there was no storage.
    Zero,
    /// The mapping stands until the count of that cluster was lowered.
    Plain(u64),
}

/// Where the clusters of the guest are stored, as far as that is known.
#[derive(Debug)]
pub struct Mapping {
    pub geometry: Geometry,
    pub l1_table: Vec<u64>,
    pub l1_dirty: bool,
    pub tables: Vec<L2Table>,
    /// The image lies on top of a backing file.
    pub has_backing: bool,
}

impl Mapping {
    /// The tables that are in memory, by L1 index.
    pub open spec fn cached(&self) -> Map<int, TableView> {
        tables_of(self.tables@)
    }

    /// Every table has its place and its size, and its entries are as they should be. A table that
    /// is in memory has a place in the file.
    pub open spec fn wf(&self) -> bool {
        &&& self.geometry.wf()
        &&& self.tables@.len() <= MAX_TABLES
        &&& forall|i: int, j: int|
            #![trigger self.tables@[i], self.tables@[j]]
            0 <= i < j < self.tables@.len() ==> self.tables@[i].l1_index
                != self.tables@[j].l1_index
        &&& forall|i: int|
            0 <= i < self.tables@.len() ==> (#[trigger] self.tables@[i]).l1_index
                < self.l1_table@.len() && self.l1_table@[self.tables@[i].l1_index as int] != 0
                && table_wf(
                self.tables@[i].values@,
                self.geometry.entries(),
            )
    }

    /// The address is part of the image.
    pub open spec fn covers(&self, address: u64) -> bool {
        address < self.geometry.virtual_size && self.geometry.l1_of(address as int)
            < self.l1_table@.len()
    }

    /// The L1 index of an address.
    pub open spec fn i(&self, address: u64) -> int {
        self.geometry.l1_of(address as int)
    }

    /// The L2 index of an address.
    pub open spec fn j(&self, address: u64) -> int {
        self.geometry.l2_of(address as int)
    }

    /// The entry of an address whose table is in memory.
    pub open spec fn entry(&self, address: u64) -> u64 {
        self.cached()[self.i(address)].values[self.j(address)]
    }

    /// What looking up an address gives.
    pub open spec fn lookup(&self, address: u64) -> Lookup {
        if !self.covers(address) {
            Lookup::Invalid
        } else if self.l1_table@[self.i(address)] == 0 {
            Lookup::Found(ClusterData::Unallocated)
        } else if !self.cached().contains_key(self.i(address)) {
            Lookup::NeedTable(self.i(address) as usize, self.l1_table@[self.i(address)])
        } else {
            Lookup::Found(
                entry_data(self.entry(address), address as int % self.geometry.cs()),
            )
        }
    }

    /// A table that is in memory is found.
    proof fn cached_at(&self, i: int)
        requires
            self.wf(),
            0 <= i < self.tables@.len(),
        ensures
            self.cached().contains_key(self.tables@[i].l1_index as int),
            self.cached()[self.tables@[i].l1_index as int] == (TableView {
                values: self.tables@[i].values@,
                dirty: self.tables@[i].dirty,
            }),
    {
        let k = self.tables@[i].l1_index as int;
        assert(is_at(self.tables@, i, k));
        let c = choose|c: int| is_at(self.tables@, c, k);
        assert(is_at(self.tables@, c, k));
        if c < i {
            assert(self.tables@[c].l1_index != self.tables@[i].l1_index);
        } else if i < c {
            assert(self.tables@[i].l1_index != self.tables@[c].l1_index);
        }
    }

    /// A table that is in memory has the right form.
    pub proof fn cached_wf(&self, k: int)
        requires
            self.wf(),
            self.cached().contains_key(k),
        ensures
            0 <= k < self.l1_table@.len(),
            self.l1_table@[k] != 0,
            table_wf(self.cached()[k].values, self.geometry.entries()),
    {
        let i = choose|i: int| is_at(self.tables@, i, k);
        self.cached_at(i);
    }

    /// A mapping with the L1 table as it was read, and no L2 table in memory.
    pub fn new(geometry: Geometry, l1_table: Vec<u64>, has_backing: bool) -> (r: Mapping)
        requires
            geometry.wf(),
        ensures
            r.wf(),
            r.geometry == geometry,
            r.l1_table@ == l1_table@,
            !r.l1_dirty,
            r.has_backing == has_backing,
            r.cached() == Map::<int, TableView>::empty(),
            r.tables@.len() == 0,
    {
        let r = Mapping {
            geometry,
            l1_table,
            l1_dirty: false,
            tables: Vec::new(),
            has_backing,
        };
        assert(r.cached() =~= Map::<int, TableView>::empty());
        r
    }

    /// The position of the table for an L1 index.
    fn find(&self, l1_index: usize) -> (r: Option<usize>)
        requires
            self.wf(),
        ensures
            match r {
                Some(p) => is_at(self.tables@, p as int, l1_index as int)
                    && self.cached().contains_key(l1_index as int)
                    && self.cached()[l1_index as int] == (TableView {
                    values: self.tables@[p as int].values@,
                    dirty: self.tables@[p as int].dirty,
                }),
                None => !self.cached().contains_key(l1_index as int),
            },
    {
        let mut p: usize = 0;
        while p < self.tables.len()
            invariant
                p <= self.tables@.len(),
                self.wf(),
                forall|q: int| 0 <= q < p ==> !is_at(self.tables@, q, l1_index as int),
            decreases self.tables@.len() - p,
        {
            if self.tables[p].l1_index == l1_index {
                proof {
                    self.cached_at(p as int);
                }
                return Some(p);
            }
            p = p + 1;
        }
        None
    }

    /// The L1 index of an address, if it is part of the image.
    fn l1_index(&self, address: u64) -> (r: Option<usize>)
        requires
            self.wf(),
        ensures
            match r {
                Some(i) => self.covers(address) && i == self.i(address),
                None => !self.covers(address),
            },
    {
        if address >= self.geometry.virtual_size {
            return None;
        }
        let i: u64 = self.geometry.l1_table_index(address);
        if i >= self.l1_table.len() as u64 {
            return None;
        }
        Some(i as usize)
    }

    /// Resolves how the cluster with the given address is stored.
    pub fn file_offset_read(&self, address: u64) -> (r: Lookup)
        requires
            self.wf(),
        ensures
            r == self.lookup(address),
    {
        let i: usize = match self.l1_index(address) {
            Some(i) => i,
            None => {
                return Lookup::Invalid;
            },
        };
        let l2_addr: u64 = self.l1_table[i];
        if l2_addr == 0 {
            return Lookup::Found(ClusterData::Unallocated);
        }
        let p: usize = match self.find(i) {
            Some(p) => p,
            None => {
                return Lookup::NeedTable(i, l2_addr);
            },
        };
        let j: usize = self.geometry.l2_table_index(address) as usize;
        proof {
            self.cached_wf(i as int);
            self.geometry.bounds();
        }
        let entry: u64 = self.tables[p].values[j];
        assert(entry_wf(entry));
        if entry == 0 {
            return Lookup::Found(ClusterData::Unallocated);
        }
        if entry & qcow::COMPRESSED_FLAG != 0 {
            return Lookup::Found(ClusterData::Compressed(entry));
        }
        if entry & qcow::ZERO_FLAG != 0 {
            return Lookup::Found(ClusterData::Zero);
        }
        proof {
            flag_bits();
            plain_bounds(entry);
        }
        Lookup::Found(ClusterData::Plain(entry + self.geometry.cluster_offset(address)))
    }

    /// Every byte of the cluster is going to be written.
    pub open spec fn overwrites(&self, address: u64, overwrite_len: usize) -> bool {
        address as int % self.geometry.cs() == 0 && overwrite_len >= self.geometry.cs()
    }

    /// What a new cluster for an address starts out with, if its entry is `entry`.
    pub open spec fn fill_for(&self, address: u64, overwrite_len: usize, entry: u64) -> Fill {
        if self.overwrites(address, overwrite_len) {
            Fill::Zeroed
        } else if entry & qcow::COMPRESSED_FLAG != 0 {
            Fill::Decompress(entry)
        } else if entry == 0 && self.has_backing {
            Fill::Backing((address - address as int % self.geometry.cs()) as u64)
        } else {
            Fill::Zeroed
        }
    }

    /// What a write at an address needs.
    pub open spec fn write_plan(&self, address: u64, overwrite_len: usize) -> WritePlan {
        let k = self.i(address);
        if !self.covers(address) {
            WritePlan::Invalid
        } else if !self.cached().contains_key(k) {
            if self.l1_table@[k] == 0 {
                WritePlan::TableThenData(self.fill_for(address, overwrite_len, 0))
            } else {
                WritePlan::NeedTable(k as usize, self.l1_table@[k])
            }
        } else if is_plain(self.entry(address)) && self.entry(address) & qcow::COMPRESSED_FLAG
            == 0 {
            WritePlan::InPlace(
                (self.entry(address) + address as int % self.geometry.cs()) as u64,
            )
        } else if self.cached()[k].dirty {
            WritePlan::Data(self.fill_for(address, overwrite_len, self.entry(address)))
        } else {
            WritePlan::DataThenTable(self.fill_for(address, overwrite_len, self.entry(address)))
        }
    }

    /// Says what a write of `overwrite_len` bytes at `address` needs. Where the bytes are not
    /// going to be written at once, `overwrite_len` is zero.
    pub fn file_offset_write(&self, address: u64, overwrite_len: usize) -> (r: WritePlan)
        requires
            self.wf(),
        ensures
            r == self.write_plan(address, overwrite_len),
    {
        let i: usize = match self.l1_index(address) {
            Some(i) => i,
            None => {
                return WritePlan::Invalid;
            },
        };
        let cs: u64 = self.geometry.cluster_size();
        let offset: u64 = self.geometry.cluster_offset(address);
        let overwrites = offset == 0 && overwrite_len as u64 >= cs;
        proof {
            flag_bits();
            assert(0u64 & 0x4000_0000_0000_0000u64 == 0) by (bit_vector);
        }
        let p: usize = match self.find(i) {
            Some(p) => p,
            None => {
                if self.l1_table[i] != 0 {
                    return WritePlan::NeedTable(i, self.l1_table[i]);
                }
                let fill = if !overwrites && self.has_backing {
                    Fill::Backing(address - offset)
                } else {
                    Fill::Zeroed
                };
                return WritePlan::TableThenData(fill);
            },
        };
        let j: usize = self.geometry.l2_table_index(address) as usize;
        proof {
            self.cached_wf(i as int);
            self.geometry.bounds();
        }
        let entry: u64 = self.tables[p].values[j];
        assert(entry_wf(entry));
        let fill = if overwrites {
            Fill::Zeroed
        } else if entry & qcow::COMPRESSED_FLAG != 0 {
            Fill::Decompress(entry)
        } else if entry == 0 && self.has_backing {
            Fill::Backing(address - offset)
        } else {
            Fill::Zeroed
        };
        let stored = entry != 0 && entry & qcow::COMPRESSED_FLAG == 0 && entry & qcow::ZERO_FLAG
            == 0;
        if stored {
            proof {
                plain_bounds(entry);
            }
            return WritePlan::InPlace(entry + offset);
        }
        proof {
            if is_plain(entry) {
                plain_bounds(entry);
            }
        }
        if self.tables[p].dirty {
            WritePlan::Data(fill)
        } else {
            WritePlan::DataThenTable(fill)
        }
    }

    /// A cluster for the L2 table has to be found before the entry of an address can change: the
    /// table is new, or it is as in the file and must not be overwritten there.
    pub open spec fn needs_table_cluster(&self, address: u64) -> bool {
        !self.cached().contains_key(self.i(address)) || !self.cached()[self.i(address)].dirty
    }

    /// The entries of the table that the entry of an address is going to be part of.
    pub open spec fn values_before(&self, address: u64) -> Seq<u64> {
        if self.cached().contains_key(self.i(address)) {
            self.cached()[self.i(address)].values
        } else {
            Seq::new(self.geometry.entries() as nat, |n: int| 0u64)
        }
    }

    /// The L1 and L2 tables point at `cluster_addr` for the address.
    ///
    /// A table that is changed goes to a new cluster, so that the file never has an L1 table that
    /// points at a table that is half written. `table` is that cluster, where one is needed.
    pub fn update_cluster_addr(&mut self, address: u64, cluster_addr: u64, table: Option<u64>) -> (r:
        Updated)
        requires
            old(self).wf(),
            old(self).covers(address),
            entry_wf(cluster_addr),
            old(self).cached().contains_key(old(self).i(address)) || old(self).l1_table@[old(self).i(address)] == 0,
            !old(self).cached().contains_key(old(self).i(address)) ==> old(self).tables@.len()
                < MAX_TABLES,
            old(self).needs_table_cluster(address) == (table is Some),
            table matches Some(t) ==> t != 0,
        ensures
            final(self).wf(),
            final(self).geometry == old(self).geometry,
            final(self).has_backing == old(self).has_backing,
            final(self).cached() == old(self).cached().insert(
                old(self).i(address),
                TableView {
                    values: old(self).values_before(address).update(
                        old(self).j(address),
                        cluster_addr,
                    ),
                    dirty: true,
                },
            ),
            entry_set(*old(self), *final(self), address, cluster_addr),
            match table {
                None => {
                    &&& final(self).l1_table@ == old(self).l1_table@
                    &&& final(self).l1_dirty == old(self).l1_dirty
                    &&& r.refcounts@ == Seq::<(u64, u16)>::empty()
                    &&& r.unref@ == Seq::<u64>::empty()
                },
                Some(t) => {
                    let before = old(self).l1_table@[old(self).i(address)];
                    &&& final(self).l1_table@ == old(self).l1_table@.update(
                        old(self).i(address),
                        t,
                    )
                    &&& final(self).l1_dirty
                    &&& r.refcounts@ == (if before == 0 {
                        seq![(t, 1u16)]
                    } else {
                        seq![(before, 0u16), (t, 1u16)]
                    })
                    &&& r.unref@ == (if before == 0 {
                        Seq::<u64>::empty()
                    } else {
                        seq![before]
                    })
                },
            },
    {
        let mut refcounts: Vec<(u64, u16)> = Vec::new();
        let mut unref: Vec<u64> = Vec::new();
        proof {
            self.geometry.bounds();
        }
        let len: usize = self.l1_table.len();
        let i: usize = self.geometry.l1_table_index(address) as usize;
        assert(i < len);
        let j: usize = self.geometry.l2_table_index(address) as usize;
        let ghost k = i as int;
        if let Some(t) = table {
            let before: u64 = self.l1_table[i];
            if before != 0 {
                unref.push(before);
                refcounts.push((before, 0));
            }
            refcounts.push((t, 1));
            self.l1_table[i] = t;
            self.l1_dirty = true;
        }
        let ghost mid = *self;
        assert(mid.tables@ == old(self).tables@);
        match self.find(i) {
            Some(p) => {
                proof {
                    self.cached_wf(k);
                }
                self.tables[p].values[j] = cluster_addr;
                self.tables[p].dirty = true;
                proof {
                    assert forall|n: int|
                        0 <= n < self.tables@.len() && n != p implies #[trigger] self.tables@[n]
                        == mid.tables@[n] by {}
                    assert(self.tables@[p as int].l1_index == mid.tables@[p as int].l1_index);
                    assert(self.tables@[p as int].values@ =~= mid.tables@[p as int].values@.update(
                        j as int,
                        cluster_addr,
                    ));
                    assert(self.wf());
                    lemma_tables_changed(mid, *self, p as int);
                }
            },
            None => {
                let n: usize = self.geometry.l2_entries() as usize;
                let mut values: Vec<u64> = vec![0u64;n];
                values[j] = cluster_addr;
                let ghost fresh = TableView { values: values@, dirty: true };
                self.tables.push(L2Table { l1_index: i, values, dirty: true });
                proof {
                    assert(fresh.values =~= old(self).values_before(address).update(
                        j as int,
                        cluster_addr,
                    ));
                    let last = self.tables@.len() - 1;
                    assert forall|a: int| 0 <= a < last implies #[trigger] self.tables@[a]
                        == mid.tables@[a] by {}
                    assert forall|a: int| 0 <= a < last implies (#[trigger] self.tables@[a]).l1_index
                        != i by {
                        assert(!is_at(mid.tables@, a, k));
                    }
                    assert(self.wf());
                    lemma_table_added(mid, *self);
                }
            },
        }
        Updated { refcounts, unref }
    }

    /// What making a cluster a zero cluster needs, once nothing is stored for it.
    pub open spec fn zero_plan(&self, address: u64) -> ZeroPlan {
        let k = self.i(address);
        if !self.covers(address) {
            ZeroPlan::Invalid
        } else if !self.cached().contains_key(k) && self.l1_table@[k] != 0 {
            ZeroPlan::NeedTable(k as usize, self.l1_table@[k])
        } else if self.needs_table_cluster(address) {
            ZeroPlan::Table
        } else {
            ZeroPlan::Nothing
        }
    }

    /// Says what making the cluster with the given address a zero cluster needs. What is stored for
    /// the cluster is dropped before.
    pub fn mark_cluster_zero(&self, address: u64) -> (r: ZeroPlan)
        requires
            self.wf(),
        ensures
            r == self.zero_plan(address),
    {
        let i: usize = match self.l1_index(address) {
            Some(i) => i,
            None => {
                return ZeroPlan::Invalid;
            },
        };
        match self.find(i) {
            None => if self.l1_table[i] != 0 {
                ZeroPlan::NeedTable(i, self.l1_table[i])
            } else {
                ZeroPlan::Table
            },
            Some(p) => if self.tables[p].dirty {
                ZeroPlan::Nothing
            } else {
                ZeroPlan::Table
            },
        }
    }

    /// What dropping the mapping of an address leaves to do.
    pub open spec fn drop_plan(&self, address: u64) -> Dropped {
        match self.lookup(address) {
            Lookup::Invalid => Dropped::Invalid,
            Lookup::NeedTable(i, a) => Dropped::NeedTable(i, a),
            Lookup::Found(ClusterData::Unallocated) => Dropped::Nothing,
            Lookup::Found(ClusterData::Compressed(e)) => Dropped::Compressed(e),
            Lookup::Found(ClusterData::Zero) => Dropped::Zero,
            Lookup::Found(ClusterData::Plain(_)) => Dropped::Plain(self.entry(address)),
        }
    }

    /// The mapping with no entry for an address.
    pub open spec fn cleared(&self, address: u64) -> Map<int, TableView> {
        self.cached().insert(
            self.i(address),
            TableView {
                values: self.cached()[self.i(address)].values.update(self.j(address), 0),
                dirty: true,
            },
        )
    }

    /// Drops the mapping of the cluster with the given address, and says what is left to do. A
    /// cluster of the file keeps its mapping until its count was lowered: see
    /// [`Mapping::drop_plain`].
    pub fn deallocate_cluster(&mut self, address: u64) -> (r: Dropped)
        requires
            old(self).wf(),
        ensures
            final(self).wf(),
            r == old(self).drop_plan(address),
            final(self).geometry == old(self).geometry,
            final(self).has_backing == old(self).has_backing,
            final(self).l1_table@ == old(self).l1_table@,
            final(self).l1_dirty == old(self).l1_dirty,
            final(self).tables@.len() == old(self).tables@.len(),
            final(self).cached() == (if r is Compressed || r is Zero {
                old(self).cleared(address)
            } else {
                old(self).cached()
            }),
    {
        match self.file_offset_read(address) {
            Lookup::Invalid => Dropped::Invalid,
            Lookup::NeedTable(i, a) => Dropped::NeedTable(i, a),
            Lookup::Found(ClusterData::Unallocated) => Dropped::Nothing,
            Lookup::Found(ClusterData::Compressed(entry)) => {
                self.clear(address);
                Dropped::Compressed(entry)
            },
            Lookup::Found(ClusterData::Zero) => {
                self.clear(address);
                Dropped::Zero
            },
            Lookup::Found(ClusterData::Plain(offset)) => {
                proof {
                    self.cached_wf(self.i(address));
                    self.geometry.bounds();
                    let n = self.j(address);
                    assert(entry_wf(self.cached()[self.i(address)].values[n]));
                    flag_bits();
                    plain_bounds(self.entry(address));
                }
                Dropped::Plain(offset - self.geometry.cluster_offset(address))
            },
        }
    }

    /// Drops the mapping of a cluster whose count was lowered.
    pub fn drop_plain(&mut self, address: u64)
        requires
            old(self).wf(),
            old(self).drop_plan(address) is Plain,
        ensures
            final(self).wf(),
            final(self).geometry == old(self).geometry,
            final(self).has_backing == old(self).has_backing,
            final(self).l1_table@ == old(self).l1_table@,
            final(self).l1_dirty == old(self).l1_dirty,
            final(self).tables@.len() == old(self).tables@.len(),
            final(self).cached() == old(self).cleared(address),
    {
        self.clear(address);
    }

    /// Whether an address is stored in that cluster of the file.
    pub fn is_stored_at(&self, address: u64, cluster: u64) -> (r: bool)
        requires
            self.wf(),
        ensures
            r == (self.drop_plan(address) == Dropped::Plain(cluster)),
    {
        match self.file_offset_read(address) {
            Lookup::Found(ClusterData::Plain(offset)) => {
                proof {
                    self.cached_wf(self.i(address));
                    self.geometry.bounds();
                    let n = self.j(address);
                    assert(entry_wf(self.cached()[self.i(address)].values[n]));
                    flag_bits();
                    plain_bounds(self.entry(address));
                }
                offset - self.geometry.cluster_offset(address) == cluster
            },
            _ => false,
        }
    }

    /// Whether the table of an address is in memory.
    pub fn has_table(&self, address: u64) -> (r: bool)
        requires
            self.wf(),
        ensures
            r == (self.covers(address) && self.cached().contains_key(self.i(address))),
    {
        match self.l1_index(address) {
            Some(i) => self.find(i).is_some(),
            None => false,
        }
    }

    /// Clears the entry of an address whose table is in memory.
    fn clear(&mut self, address: u64)
        requires
            old(self).wf(),
            old(self).covers(address),
            old(self).cached().contains_key(old(self).i(address)),
        ensures
            final(self).wf(),
            final(self).geometry == old(self).geometry,
            final(self).has_backing == old(self).has_backing,
            final(self).l1_table@ == old(self).l1_table@,
            final(self).l1_dirty == old(self).l1_dirty,
            final(self).tables@.len() == old(self).tables@.len(),
            final(self).cached() == old(self).cleared(address),
    {
        let len: usize = self.l1_table.len();
        let i: usize = self.geometry.l1_table_index(address) as usize;
        assert(i < len);
        let j: usize = self.geometry.l2_table_index(address) as usize;
        let ghost mid = *self;
        if let Some(p) = self.find(i) {
            proof {
                self.cached_wf(i as int);
                self.geometry.bounds();
            }
            self.tables[p].values[j] = 0;
            self.tables[p].dirty = true;
            proof {
                assert forall|n: int|
                    0 <= n < self.tables@.len() && n != p implies #[trigger] self.tables@[n]
                    == mid.tables@[n] by {}
                assert(self.tables@[p as int].l1_index == mid.tables@[p as int].l1_index);
                assert(self.tables@[p as int].values@ =~= mid.tables@[p as int].values@.update(
                    j as int,
                    0,
                ));
                assert(self.wf());
                lemma_tables_changed(mid, *self, p as int);
            }
        }
    }

    /// Takes an L2 table that was read for an L1 index.
    pub fn load_table(&mut self, l1_index: usize, raw: &Vec<u64>)
        requires
            old(self).wf(),
            old(self).tables@.len() < MAX_TABLES,
            l1_index < old(self).l1_table@.len(),
            old(self).l1_table@[l1_index as int] != 0,
            !old(self).cached().contains_key(l1_index as int),
            raw@.len() == old(self).geometry.entries(),
        ensures
            final(self).wf(),
            final(self).geometry == old(self).geometry,
            final(self).has_backing == old(self).has_backing,
            final(self).l1_table@ == old(self).l1_table@,
            final(self).l1_dirty == old(self).l1_dirty,
            final(self).cached() == old(self).cached().insert(
                l1_index as int,
                TableView {
                    values: Seq::new(raw@.len(), |n: int| decoded(raw@[n])),
                    dirty: false,
                },
            ),
    {
        let values = read_l2_cluster(raw);
        let ghost mid = *self;
        self.tables.push(L2Table { l1_index, values, dirty: false });
        proof {
            let last = self.tables@.len() - 1;
            assert forall|a: int| 0 <= a < last implies #[trigger] self.tables@[a]
                == mid.tables@[a] by {}
            assert forall|a: int| 0 <= a < last implies (#[trigger] self.tables@[a]).l1_index
                != l1_index by {
                assert(!is_at(mid.tables@, a, l1_index as int));
            }
            assert(self.wf());
            lemma_table_added(mid, *self);
        }
    }

    /// An L2 table that was read for an L1 index can be taken: it is not in memory, it has a place
    /// in the file, and there is room for it.
    pub open spec fn takes_table(&self, l1_index: usize, len: nat) -> bool {
        &&& self.tables@.len() < MAX_TABLES
        &&& l1_index < self.l1_table@.len()
        &&& self.l1_table@[l1_index as int] != 0
        &&& !self.cached().contains_key(l1_index as int)
        &&& len == self.geometry.entries()
    }

    /// Takes an L2 table that was read for an L1 index, if it can be taken.
    pub fn take_table(&mut self, l1_index: usize, raw: &Vec<u64>) -> (r: bool)
        requires
            old(self).wf(),
        ensures
            final(self).wf(),
            r == old(self).takes_table(l1_index, raw@.len()),
            final(self).geometry == old(self).geometry,
            final(self).has_backing == old(self).has_backing,
            final(self).l1_table@ == old(self).l1_table@,
            final(self).l1_dirty == old(self).l1_dirty,
            final(self).cached() == (if r {
                old(self).cached().insert(
                    l1_index as int,
                    TableView {
                        values: Seq::new(raw@.len(), |n: int| decoded(raw@[n])),
                        dirty: false,
                    },
                )
            } else {
                old(self).cached()
            }),
    {
        if self.tables.len() >= MAX_TABLES || l1_index >= self.l1_table.len()
            || self.l1_table[l1_index] == 0 || self.find(l1_index).is_some() || raw.len() as u64
            != self.geometry.l2_entries() {
            return false;
        }
        self.load_table(l1_index, raw);
        true
    }

    /// Makes room for another table, if there is none. A table that has to go and that was changed
    /// is to be written to the file, at the offset that comes with it.
    pub fn make_room(&mut self) -> (r: Option<(u64, Vec<u64>)>)
        requires
            old(self).wf(),
        ensures
            final(self).wf(),
            final(self).tables@.len() < MAX_TABLES,
            final(self).tables@.len() < 100,
            final(self).tables@.len() < old(self).tables@.len() ==> old(self).tables@.len() >= 100,
            final(self).geometry == old(self).geometry,
            final(self).has_backing == old(self).has_backing,
            final(self).l1_table@ == old(self).l1_table@,
            final(self).l1_dirty == old(self).l1_dirty,
            old(self).tables@.len() < MAX_TABLES ==> r is None && final(self).cached() == old(self).cached(),
            old(self).tables@.len() == MAX_TABLES ==> exists|k: int| #[trigger]
                old(self).cached().contains_key(k) && final(self).cached() == old(self).cached().remove(k) && (match r {
                    Some((addr, values)) => old(self).cached()[k].dirty && addr == old(self).l1_table@[k] && values@ == old(self).cached()[k].values,
                    None => !old(self).cached()[k].dirty,
                }),
    {
        if self.tables.len() < MAX_TABLES {
            return None;
        }
        let ghost mid = *self;
        let last: usize = self.tables.len() - 1;
        proof {
            self.cached_at(last as int);
        }
        match self.tables.pop() {
            None => None,
            Some(t) => {
                let addr: u64 = self.l1_table[t.l1_index];
                proof {
                    let k = t.l1_index as int;
                    assert forall|a: int| 0 <= a < self.tables@.len() implies #[trigger] self.tables@[a]
                        == mid.tables@[a] by {}
                    assert(self.wf());
                    lemma_table_added(*self, mid);
                    assert(!self.cached().contains_key(k)) by {
                        if self.cached().contains_key(k) {
                            let a = choose|a: int| is_at(self.tables@, a, k);
                            assert(mid.tables@[a].l1_index != mid.tables@[last as int].l1_index);
                        }
                    }
                    assert(mid.cached().remove(k) =~= self.cached());
                    assert(mid.cached().contains_key(k));
                }
                if t.dirty {
                    Some((addr, t.values))
                } else {
                    None
                }
            },
        }
    }

    /// The first table that was changed since it was last written: its L1 index and the offset of
    /// the file that it belongs to.
    pub fn next_dirty(&self) -> (r: Option<(usize, u64)>)
        requires
            self.wf(),
        ensures
            match r {
                Some((k, addr)) => self.cached().contains_key(k as int) && self.cached()[k as
                int].dirty && addr == self.l1_table@[k as int],
                None => forall|k: int| #[trigger]
                    self.cached().contains_key(k) ==> !self.cached()[k].dirty,
            },
    {
        let mut p: usize = 0;
        while p < self.tables.len()
            invariant
                p <= self.tables@.len(),
                self.wf(),
                forall|q: int| 0 <= q < p ==> !(#[trigger] self.tables@[q]).dirty,
            decreases self.tables@.len() - p,
        {
            if self.tables[p].dirty {
                proof {
                    self.cached_at(p as int);
                }
                let k: usize = self.tables[p].l1_index;
                return Some((k, self.l1_table[k]));
            }
            p = p + 1;
        }
        proof {
            assert forall|k: int| #[trigger] self.cached().contains_key(k) implies !self.cached()[k].dirty
                by {
                let q = choose|q: int| is_at(self.tables@, q, k);
                self.cached_at(q);
            }
        }
        None
    }

    /// The entries of the table for an L1 index, for writing.
    pub fn table_values(&self, l1_index: usize) -> (r: Option<&Vec<u64>>)
        requires
            self.wf(),
        ensures
            match r {
                Some(v) => self.cached().contains_key(l1_index as int) && v@
                    == self.cached()[l1_index as int].values,
                None => !self.cached().contains_key(l1_index as int),
            },
    {
        match self.find(l1_index) {
            Some(p) => Some(&self.tables[p].values),
            None => None,
        }
    }

    /// The table for an L1 index was written.
    pub fn mark_clean(&mut self, l1_index: usize)
        requires
            old(self).wf(),
            old(self).cached().contains_key(l1_index as int),
        ensures
            final(self).wf(),
            final(self).geometry == old(self).geometry,
            final(self).has_backing == old(self).has_backing,
            final(self).l1_table@ == old(self).l1_table@,
            final(self).l1_dirty == old(self).l1_dirty,
            final(self).cached() == old(self).cached().insert(
                l1_index as int,
                TableView { dirty: false, ..old(self).cached()[l1_index as int] },
            ),
    {
        let ghost mid = *self;
        if let Some(p) = self.find(l1_index) {
            self.tables[p].dirty = false;
            proof {
                assert forall|n: int|
                    0 <= n < self.tables@.len() && n != p implies #[trigger] self.tables@[n]
                    == mid.tables@[n] by {}
                assert(self.tables@[p as int].l1_index == mid.tables@[p as int].l1_index);
                assert(self.tables@[p as int].values@ == mid.tables@[p as int].values@);
                assert(self.wf());
                lemma_tables_changed(mid, *self, p as int);
            }
        }
    }
}

/// A table has the right number of entries, and each is as it should be.
pub open spec fn table_wf(values: Seq<u64>, entries: int) -> bool {
    &&& values.len() == entries
    &&& forall|n: int| 0 <= n < values.len() ==> entry_wf(#[trigger] values[n])
}

/// Changing the table at one position changes what is known of its L1 index, and nothing else.
proof fn lemma_tables_changed(before: Mapping, after: Mapping, p: int)
    requires
        before.wf(),
        after.wf(),
        before.tables@.len() == after.tables@.len(),
        0 <= p < before.tables@.len(),
        before.tables@[p].l1_index == after.tables@[p].l1_index,
        forall|n: int|
            0 <= n < before.tables@.len() && n != p ==> #[trigger] after.tables@[n]
                == before.tables@[n],
    ensures
        after.cached() == before.cached().insert(
            before.tables@[p].l1_index as int,
            TableView { values: after.tables@[p].values@, dirty: after.tables@[p].dirty },
        ),
{
    let k = before.tables@[p].l1_index as int;
    let goal = before.cached().insert(
        k,
        TableView { values: after.tables@[p].values@, dirty: after.tables@[p].dirty },
    );
    after.cached_at(p);
    assert forall|m: int| #[trigger] after.cached().contains_key(m) == goal.contains_key(m) by {
        if after.cached().contains_key(m) {
            let q = choose|q: int| is_at(after.tables@, q, m);
            if q != p {
                assert(after.tables@[q] == before.tables@[q]);
                assert(is_at(before.tables@, q, m));
            }
        }
        if goal.contains_key(m) && m != k {
            let q = choose|q: int| is_at(before.tables@, q, m);
            assert(after.tables@[q] == before.tables@[q]);
            assert(is_at(after.tables@, q, m));
        }
    }
    assert forall|m: int| #[trigger] after.cached().contains_key(m) implies after.cached()[m]
        == goal[m] by {
        if m != k {
            let q = choose|q: int| is_at(after.tables@, q, m);
            after.cached_at(q);
            assert(after.tables@[q] == before.tables@[q]);
            before.cached_at(q);
        }
    }
    assert(after.cached() =~= goal);
}

/// A table that is added at the end is known afterwards, and nothing else changes.
proof fn lemma_table_added(before: Mapping, after: Mapping)
    requires
        before.wf(),
        after.wf(),
        after.tables@.len() == before.tables@.len() + 1,
        forall|n: int|
            0 <= n < before.tables@.len() ==> #[trigger] after.tables@[n] == before.tables@[n],
    ensures
        ({
            let t = after.tables@[before.tables@.len() as int];
            after.cached() == before.cached().insert(
                t.l1_index as int,
                TableView { values: t.values@, dirty: t.dirty },
            )
        }),
{
    let last = before.tables@.len() as int;
    let t = after.tables@[last];
    let k = t.l1_index as int;
    let goal = before.cached().insert(k, TableView { values: t.values@, dirty: t.dirty });
    after.cached_at(last);
    assert forall|m: int| #[trigger] after.cached().contains_key(m) == goal.contains_key(m) by {
        if after.cached().contains_key(m) {
            let q = choose|q: int| is_at(after.tables@, q, m);
            if q != last {
                assert(after.tables@[q] == before.tables@[q]);
                assert(is_at(before.tables@, q, m));
            }
        }
        if goal.contains_key(m) && m != k {
            let q = choose|q: int| is_at(before.tables@, q, m);
            assert(after.tables@[q] == before.tables@[q]);
            assert(is_at(after.tables@, q, m));
        }
    }
    assert forall|m: int| #[trigger] after.cached().contains_key(m) implies after.cached()[m]
        == goal[m] by {
        if m != k {
            let q = choose|q: int| is_at(after.tables@, q, m);
            after.cached_at(q);
            assert(after.tables@[q] == before.tables@[q]);
            before.cached_at(q);
        }
    }
    assert(after.cached() =~= goal);
}

/// Two addresses lie in the same cluster of the guest.
pub open spec fn same_cluster(g: Geometry, a: u64, b: u64) -> bool {
    a as int / g.cs() == b as int / g.cs()
}

/// The mapping `after` is `before` with `entry` for the cluster of `address`.
pub open spec fn entry_set(before: Mapping, after: Mapping, address: u64, entry: u64) -> bool {
    &&& after.geometry == before.geometry
    &&& after.cached() == before.cached().insert(
        before.i(address),
        TableView {
            values: before.values_before(address).update(before.j(address), entry),
            dirty: true,
        },
    )
    &&& after.l1_table@.len() == before.l1_table@.len()
    &&& after.l1_table@[before.i(address)] != 0
    &&& forall|k: int|
        0 <= k < before.l1_table@.len() && k != before.i(address) ==> #[trigger] after.l1_table@[k]
            == before.l1_table@[k]
}

/// Setting the entry of a cluster decides how every address of that cluster is looked up, and
/// leaves every other cluster alone.
pub proof fn setting_an_entry_is_local(
    before: Mapping,
    after: Mapping,
    address: u64,
    entry: u64,
    other: u64,
)
    requires
        before.wf(),
        after.wf(),
        before.covers(address),
        before.cached().contains_key(before.i(address)) || before.l1_table@[before.i(address)] == 0,
        entry_set(before, after, address, entry),
    ensures
        same_cluster(before.geometry, address, other) && other < before.geometry.virtual_size
            ==> after.lookup(other) == Lookup::Found(
            entry_data(entry, other as int % before.geometry.cs()),
        ),
        !same_cluster(before.geometry, address, other) ==> after.lookup(other) == before.lookup(
            other,
        ),
{
    let g = before.geometry;
    g.bounds();
    geometry::entries_are_clusters(g, address as int, other as int);
    let k = before.i(address);
    vstd::arithmetic::div_mod::lemma_mod_bound(address as int / g.cs(), g.entries());
    vstd::arithmetic::div_mod::lemma_mod_bound(other as int / g.cs(), g.entries());
    vstd::arithmetic::div_mod::lemma_div_pos_is_pos(other as int, g.cs());
    vstd::arithmetic::div_mod::lemma_div_pos_is_pos(other as int / g.cs(), g.entries());
    if before.cached().contains_key(k) {
        before.cached_wf(k);
    }
    let values = before.values_before(address);
    assert(values.len() == g.entries());
    if before.i(other) == k {
        assert(after.cached()[k].values == values.update(before.j(address), entry));
    }
}

/// After a write found a cluster for its data, the address is stored in that cluster.
pub proof fn a_written_cluster_is_plain(
    before: Mapping,
    after: Mapping,
    address: u64,
    cluster: u64,
    other: u64,
)
    requires
        before.wf(),
        after.wf(),
        before.covers(address),
        before.cached().contains_key(before.i(address)) || before.l1_table@[before.i(address)] == 0,
        is_plain(cluster),
        entry_set(before, after, address, cluster),
        same_cluster(before.geometry, address, other),
        other < before.geometry.virtual_size,
    ensures
        after.lookup(other) == Lookup::Found(
            ClusterData::Plain((cluster + other as int % before.geometry.cs()) as u64),
        ),
{
    setting_an_entry_is_local(before, after, address, cluster, other);
    plain_bounds(cluster);
}

/// After a cluster was marked as zero it reads as zeroes, with or without a backing file.
pub proof fn a_zeroed_cluster_is_zero(before: Mapping, after: Mapping, address: u64, other: u64)
    requires
        before.wf(),
        after.wf(),
        before.covers(address),
        before.cached().contains_key(before.i(address)) || before.l1_table@[before.i(address)] == 0,
        entry_set(before, after, address, qcow::ZERO_FLAG),
        same_cluster(before.geometry, address, other),
        other < before.geometry.virtual_size,
    ensures
        after.lookup(other) == Lookup::Found(ClusterData::Zero),
{
    setting_an_entry_is_local(before, after, address, qcow::ZERO_FLAG, other);
    flag_bits();
}

/// After a mapping was dropped nothing is stored for its cluster.
pub proof fn a_dropped_cluster_is_unallocated(
    before: Mapping,
    after: Mapping,
    address: u64,
    other: u64,
)
    requires
        before.wf(),
        after.wf(),
        before.covers(address),
        before.cached().contains_key(before.i(address)),
        after.geometry == before.geometry,
        after.l1_table@ == before.l1_table@,
        after.cached() == before.cleared(address),
        same_cluster(before.geometry, address, other),
        other < before.geometry.virtual_size,
    ensures
        after.lookup(other) == Lookup::Found(ClusterData::Unallocated),
{
    before.cached_wf(before.i(address));
    setting_an_entry_is_local(before, after, address, 0, other);
}

/// Data is written in place exactly where it is read from: a write finds the offset that a later
/// read of the same address looks at.
pub proof fn reads_and_writes_agree(m: Mapping, address: u64, overwrite_len: usize, offset: u64)
    requires
        m.wf(),
    ensures
        m.write_plan(address, overwrite_len) == WritePlan::InPlace(offset) <==> m.lookup(address)
            == Lookup::Found(ClusterData::Plain(offset)),
{
    if m.covers(address) && m.cached().contains_key(m.i(address)) {
        m.cached_wf(m.i(address));
        m.geometry.bounds();
        let n = m.j(address);
        vstd::arithmetic::div_mod::lemma_mod_bound(
            address as int / m.geometry.cs(),
            m.geometry.entries(),
        );
        let e = m.cached()[m.i(address)].values[n];
        assert(entry_wf(e));
        flag_bits();
        if is_plain(e) {
            plain_bounds(e);
        }
    }
}

/// What an entry of the file means: its second highest bit marks a compressed cluster, of which
/// everything else is a description; otherwise its lowest bit marks a cluster of zeroes, and without
/// that its lowest nine bits and its highest eight are no part of the offset.
pub proof fn entries_of_the_file(raw: u64)
    ensures
        raw / 0x4000_0000_0000_0000 % 2 == 1 ==> decoded(raw) == raw,
        raw / 0x4000_0000_0000_0000 % 2 == 0 && raw % 2 == 1 ==> decoded(raw) == 1,
        raw / 0x4000_0000_0000_0000 % 2 == 0 && raw % 2 == 0 ==> decoded(raw) == raw
            % 0x100_0000_0000_0000 - raw % 512,
{
    assert((raw & 0x4000_0000_0000_0000u64 != 0) == (raw / 0x4000_0000_0000_0000 % 2 == 1) && (raw
        & 1u64 != 0) == (raw % 2 == 1) && raw & 0x00ff_ffff_ffff_fe00u64 == raw
        % 0x100_0000_0000_0000u64 - raw % 512) by (bit_vector);
}

/// What an entry in memory says of its cluster: nothing is stored where it is zero; a compressed cluster
/// has bit 62 and is known by its entry; one is a cluster of zeroes; any other is where the cluster
/// begins.
pub proof fn entries_say_how_data_is_stored(entry: u64, offset: int)
    requires
        entry_wf(entry),
        0 <= offset < 0x20_0000,
    ensures
        entry_data(entry, offset) is Unallocated <==> entry == 0,
        entry_data(entry, offset) is Zero <==> entry == 1,
        entry_data(entry, offset) is Compressed <==> entry / 0x4000_0000_0000_0000 % 2 == 1,
        entry_data(entry, offset) matches ClusterData::Compressed(e) ==> e == entry,
        entry_data(entry, offset) matches ClusterData::Plain(at) ==> at == entry + offset && entry
            % 512 == 0,
{
    flag_bits();
    assert((entry & 0x4000_0000_0000_0000u64 != 0) == (entry / 0x4000_0000_0000_0000 % 2 == 1))
        by (bit_vector);
    if is_plain(entry) {
        plain_bounds(entry);
        assert(entry % 512 == 0) by (bit_vector)
            requires
                entry & 0x00ff_ffff_ffff_fe00u64 == entry,
        ;
    }
}

/// An entry of the file that points at a cluster of its own has its highest bit set, and no other entry
/// has.
pub proof fn used_clusters_are_marked(entry: u64)
    requires
        entry_wf(entry),
    ensures
        is_plain(entry) ==> stored(entry) == entry + 0x8000_0000_0000_0000,
        !is_plain(entry) ==> stored(entry) == entry % 0x8000_0000_0000_0000,
{
    flag_bits();
    if is_plain(entry) {
        plain_bounds(entry);
        assert(entry | 0x8000_0000_0000_0000u64 == entry + 0x8000_0000_0000_0000) by (bit_vector)
            requires
                entry <= 0x00ff_ffff_ffff_fe00u64,
        ;
    } else {
        assert(entry & !0x8000_0000_0000_0000u64 == entry % 0x8000_0000_0000_0000) by (bit_vector);
    }
}

/// Dropping a cluster leaves to do what was stored for it: nothing, the release of a payload, or that
/// of the cluster that the data lies in.
pub proof fn dropping_says_what_was_stored(m: Mapping, address: u64)
    requires
        m.wf(),
    ensures
        m.drop_plan(address) is Invalid <==> m.lookup(address) is Invalid,
        m.drop_plan(address) matches Dropped::NeedTable(i, at) ==> m.lookup(address)
            == Lookup::NeedTable(i, at),
        m.drop_plan(address) is Nothing <==> m.lookup(address) == Lookup::Found(
            ClusterData::Unallocated,
        ),
        m.drop_plan(address) is Zero <==> m.lookup(address) == Lookup::Found(ClusterData::Zero),
        m.drop_plan(address) matches Dropped::Compressed(e) ==> m.lookup(address) == Lookup::Found(
            ClusterData::Compressed(e),
        ),
        m.drop_plan(address) matches Dropped::Plain(c) ==> m.lookup(address) == Lookup::Found(
            ClusterData::Plain((c + address as int % m.geometry.cs()) as u64),
        ),
{
}

/// Marking a cluster as zeroes needs what a write there needs, but for the data: the same table is read
/// first, and a table that a write could not change in its place is moved.
pub proof fn marking_needs_what_a_write_needs(m: Mapping, address: u64, overwrite_len: usize)
    requires
        m.wf(),
    ensures
        match m.write_plan(address, overwrite_len) {
            WritePlan::Invalid => m.zero_plan(address) is Invalid,
            WritePlan::NeedTable(i, at) => m.zero_plan(address) == ZeroPlan::NeedTable(i, at),
            WritePlan::TableThenData(_) => m.zero_plan(address) is Table,
            WritePlan::DataThenTable(_) => m.zero_plan(address) is Table,
            WritePlan::Data(_) => m.zero_plan(address) is Nothing,
            WritePlan::InPlace(_) => m.zero_plan(address) is Table || m.zero_plan(address)
                is Nothing,
        },
{
}

/// A cluster that has its own place in the file is written there; for any other a cluster is found, and
/// a table that is in the file as it is in memory is moved, never written over. A cluster that is not
/// going to be written whole starts out with what the guest saw there.
pub proof fn what_is_in_the_file_is_not_written_over(
    m: Mapping,
    address: u64,
    overwrite_len: usize,
)
    requires
        m.wf(),
        m.covers(address),
    ensures
        ({
            let k = m.i(address);
            let c = m.geometry.cs();
            let plan = m.write_plan(address, overwrite_len);
            let known = m.cached().contains_key(k);
            let start = address - address as int % c;
            let whole = start == address && overwrite_len >= c;
            &&& known && is_plain(m.entry(address)) <==> plan is InPlace
            &&& plan matches WritePlan::InPlace(at) ==> at == m.entry(address) + address as int % c
            &&& known && !is_plain(m.entry(address)) && !m.cached()[k].dirty ==> plan
                is DataThenTable
            &&& known && !is_plain(m.entry(address)) && m.cached()[k].dirty ==> plan is Data
            &&& !known && m.l1_table@[k] == 0 ==> plan is TableThenData
            &&& !known && m.l1_table@[k] != 0 ==> plan is NeedTable
            &&& plan matches WritePlan::TableThenData(fill) ==> (m.has_backing && !whole ==> fill
                == Fill::Backing(start as u64)) && (whole || !m.has_backing ==> fill is Zeroed)
            &&& plan matches WritePlan::Data(fill) ==> (whole ==> fill is Zeroed) && (!whole
                && m.entry(address) == 0 && m.has_backing ==> fill == Fill::Backing(start as u64))
                && (!whole && m.entry(address) == 1 ==> fill is Zeroed)
            &&& plan matches WritePlan::DataThenTable(fill) ==> (whole ==> fill is Zeroed) && (
            !whole && m.entry(address) == 0 && m.has_backing ==> fill == Fill::Backing(
                start as u64,
            )) && (!whole && m.entry(address) == 1 ==> fill is Zeroed)
        }),
{
    m.geometry.bounds();
    flag_bits();
    assert(0u64 & 0x4000_0000_0000_0000u64 == 0) by (bit_vector);
    let k = m.i(address);
    if m.cached().contains_key(k) {
        m.cached_wf(k);
        let e = m.entry(address);
        vstd::arithmetic::div_mod::lemma_fundamental_div_mod(address as int, m.geometry.cs());
        vstd::arithmetic::div_mod::lemma_mod_bound(address as int, m.geometry.cs());
        vstd::arithmetic::div_mod::lemma_mod_bound(address as int / m.geometry.cs(), m.geometry.entries());
        if is_plain(e) {
            plain_bounds(e);
        }
    }
}

} // verus!
