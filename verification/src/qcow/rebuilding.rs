//! Rebuilding the counts of an image, step by step.

use vstd::arithmetic::div_mod::*;
use vstd::prelude::*;

use crate::qcow;
use crate::qcow::contents;
use crate::qcow::contents::Volume;
use crate::qcow::geometry;
use crate::qcow::geometry::Geometry;
use crate::qcow::header::QcowHeader;
use crate::qcow::map::Mapping;
use crate::qcow::open;
use crate::qcow::opening;
use crate::qcow::opening::OpenGiven;
use crate::qcow::rebuild;
use crate::qcow::refblocks;
use crate::qcow::rebuild::{Plan, Rebuild, Write};
use crate::qcow::Error;

verus! {

/// What a step needs before the next.
#[derive(Clone, Copy, Debug, PartialEq, Eq, Structural)]
pub enum RebuildNeed {
    /// The size of the file.
    FileSize,
    /// The table at that offset, of so many entries, as the file holds them.
    Table(u64, u64),
    /// The header has to be written as it is now.
    WriteHeader,
    /// The block of counts with that index has to be written to that offset.
    WriteBlock(u64, usize),
    /// The refcount table has to be written to that offset.
    WriteTable(u64),
}

/// How a step ends.
#[derive(Clone, Copy, Debug, PartialEq, Eq, Structural)]
pub enum RebuildTurn {
    Need(RebuildNeed),
    /// The counts are rebuilt, and in the file.
    Rebuilt,
    /// The counts cannot be rebuilt.
    Refused(Error),
    /// What was given is not what was needed.
    Unexpected,
}

/// How far a rebuild has come.
#[derive(Clone, Copy, Debug, PartialEq, Eq, Structural)]
pub enum RebuildStage {
    /// It waits for the size of the file.
    Size,
    /// It waits for the L1 table.
    L1,
    /// It waits for the L2 table with that L1 index.
    Table(usize),
    /// The counts are known, and so many of the writes were asked for.
    Write(usize),
    Over,
}

/// Counts that are rebuilt.
pub struct Rebuilding {
    pub header: QcowHeader,
    pub stage: RebuildStage,
    pub plan: Plan,
    pub counts: Rebuild,
    /// The L1 table, without the flags of its entries.
    pub l1_table: Vec<u64>,
    /// The new refcount table.
    pub table: Vec<u64>,
    /// The writes that put the counts into the file, in order.
    pub writes: Vec<Write>,
    /// The clusters that were counted so far, each as often as it is referred to.
    pub seen: Ghost<Seq<u64>>,
    /// The L2 tables that were read so far, by their L1 index; where the L1 table points at none,
    /// an empty one.
    pub read: Ghost<Seq<Seq<u64>>>,
}

/// The clusters that the first `n` entries of an L1 table lead to: those of the L2 tables, and
/// those that the entries of these refer to.
pub open spec fn tables_refs(
    l1_table: Seq<u64>,
    tables: Seq<Seq<u64>>,
    cluster_bits: u32,
    n: int,
) -> Seq<u64>
    decreases n,
{
    if n <= 0 {
        Seq::empty()
    } else {
        tables_refs(l1_table, tables, cluster_bits, n - 1) + (if l1_table[n - 1] == 0 {
            Seq::empty()
        } else {
            rebuild::table_refs(l1_table[n - 1], tables[n - 1], cluster_bits)
        })
    }
}

/// The clusters that an image refers to, each as often as it does: the header, the L1 table, the
/// L2 tables and what their entries refer to, and the refcount table.
pub open spec fn image_refs(h: QcowHeader, l1_table: Seq<u64>, tables: Seq<Seq<u64>>) -> Seq<u64> {
    seq![0u64] + rebuild::l1_run(h) + tables_refs(
        l1_table,
        tables,
        h.cluster_bits,
        l1_table.len() as int,
    ) + rebuild::reftable_run(h)
}

/// A table that is read later does not matter for those before.
proof fn tables_refs_prefix(
    l1_table: Seq<u64>,
    tables: Seq<Seq<u64>>,
    t: Seq<u64>,
    cluster_bits: u32,
    n: int,
)
    requires
        n <= tables.len(),
    ensures
        tables_refs(l1_table, tables.push(t), cluster_bits, n) == tables_refs(
            l1_table,
            tables,
            cluster_bits,
            n,
        ),
    decreases n,
{
    if n > 0 {
        tables_refs_prefix(l1_table, tables, t, cluster_bits, n - 1);
    }
}

/// The L1 index of the next L2 table.
pub open spec fn next_table(l1_table: Seq<u64>, from: int) -> Option<int>
    decreases l1_table.len() - from,
{
    if from >= l1_table.len() {
        None
    } else if l1_table[from] != 0 {
        Some(from)
    } else {
        next_table(l1_table, from + 1)
    }
}

/// No cluster is counted.
pub open spec fn uncounted(n: u64) -> Seq<u16> {
    Seq::new(n as nat, |i: int| 0u16)
}

/// The counts and the refcount table once the blocks of counts have their clusters, where `counts`
/// are those of everything else.
pub open spec fn with_blocks(h: QcowHeader, counts: Seq<u16>) -> Option<(Seq<u16>, Seq<u64>)> {
    let cs = open::geometry_of(h).cs();
    refblocks::settled(
        counts,
        Seq::new(rebuild::table_entries(h) as nat, |j: int| 0u64),
        cs,
        cs / 2,
        rebuild::refblocks(h),
        open::unreferenced(counts, counts.len() as int, cs),
    )
}

/// The header with the lazy-refcounts bit set or not.
pub open spec fn with_lazy(h: QcowHeader, on: bool) -> QcowHeader {
    QcowHeader {
        compatible_features: if on {
            h.compatible_features | qcow::COMPATIBLE_FEATURES_LAZY_REFCOUNTS
        } else {
            h.compatible_features & !qcow::COMPATIBLE_FEATURES_LAZY_REFCOUNTS
        },
        ..h
    }
}

/// The header says that the counts lag behind.
pub open spec fn is_lazy(h: QcowHeader) -> bool {
    h.compatible_features & qcow::COMPATIBLE_FEATURES_LAZY_REFCOUNTS != 0
}

impl Rebuilding {
    /// The format of the image was checked, and the sizes are known.
    pub open spec fn planned(&self) -> bool {
        let h = self.header;
        let g = open::geometry_of(h);
        &&& g.wf()
        &&& h.size <= qcow::MAX_QCOW_FILE_SIZE
        &&& self.counts.geometry == g
        &&& self.counts.wf()
        &&& self.plan.max_clusters == rebuild::max_clusters(h)
        &&& self.plan.refblock_clusters == rebuild::refblocks(h)
        &&& self.plan.block_entries == g.cs() / 2
        &&& self.plan.table_entries == rebuild::table_entries(h)
        &&& rebuild::max_clusters(h) <= qcow::MAX_RAM_POINTER_TABLE_SIZE
    }

    /// The tables before L1 index `i` are read; what was counted is what they and the header lead
    /// to.
    pub open spec fn read_up_to(&self, i: int) -> bool {
        &&& self.read@.len() == i
        &&& self.seen@ == seq![0u64] + rebuild::l1_run(self.header) + tables_refs(
            self.l1_table@,
            self.read@,
            self.header.cluster_bits,
            i,
        )
        &&& rebuild::counted(
            uncounted(self.plan.max_clusters),
            open::geometry_of(self.header).cs(),
            self.seen@,
        ) == Ok::<Seq<u16>, Error>(self.counts.counts@)
    }

    /// All tables are read and counted, and so are the new blocks of counts, which are in clusters
    /// that nothing refers to.
    pub open spec fn all_counted(&self) -> bool {
        let h = self.header;
        let cs = open::geometry_of(h).cs();
        &&& self.read@.len() == self.l1_table@.len()
        &&& self.seen@ == image_refs(h, self.l1_table@, self.read@)
        &&& match rebuild::counted(uncounted(self.plan.max_clusters), cs, self.seen@) {
            Err(_) => false,
            Ok(c) => with_blocks(h, c) == Some((self.counts.counts@, self.table@)),
        }
    }

    /// What was counted so far are the clusters that were seen; when all are, the writes follow.
    pub open spec fn wf(&self) -> bool {
        match self.stage {
            RebuildStage::Size => {
                &&& open::geometry_of(self.header).wf()
                &&& self.header.size <= qcow::MAX_QCOW_FILE_SIZE
                &&& self.counts.geometry == open::geometry_of(self.header)
            },
            RebuildStage::L1 => self.planned() && self.read_up_to(0),
            RebuildStage::Table(i) => {
                &&& self.planned()
                &&& self.read_up_to(i as int)
                &&& i < self.l1_table@.len()
                &&& self.l1_table@[i as int] != 0
            },
            RebuildStage::Write(k) => {
                &&& self.planned()
                &&& self.all_counted()
                &&& self.writes@ == rebuild::writes_in_order(self.table@)
                &&& k <= self.writes@.len()
                &&& k == self.writes@.len() ==> !is_lazy(self.header)
            },
            RebuildStage::Over => {
                &&& self.planned()
                &&& self.all_counted()
                &&& !is_lazy(self.header)
            },
        }
    }

    /// Starts with the header of an image whose format was checked.
    pub fn start(header: QcowHeader) -> (r: Rebuilding)
        requires
            open::geometry_of(header).wf(),
            header.size <= qcow::MAX_QCOW_FILE_SIZE,
        ensures
            r.wf(),
            r.header == header,
            r.stage == RebuildStage::Size,
            r.seen@ == Seq::<u64>::empty(),
    {
        let geometry = Geometry { cluster_bits: header.cluster_bits, virtual_size: header.size };
        Rebuilding {
            header,
            stage: RebuildStage::Size,
            plan: Plan { max_clusters: 0, refblock_clusters: 0, block_entries: 0, table_entries: 0 },
            counts: Rebuild { geometry, counts: Vec::new() },
            l1_table: Vec::new(),
            table: Vec::new(),
            writes: Vec::new(),
            seen: Ghost(Seq::empty()),
            read: Ghost(Seq::empty()),
        }
    }

    /// The rebuild goes on with the L2 tables from an L1 index on: `seen` are the clusters that were
    /// counted before, and `read` the tables that were read. Where no table is left, the refcount
    /// table is counted, clusters for the new blocks are found, and the header says that the counts
    /// lag behind.
    pub open spec fn went_on(
        &self,
        after: &Self,
        l1_table: Seq<u64>,
        from: int,
        seen: Seq<u64>,
        read: Seq<Seq<u64>>,
        r: RebuildTurn,
    ) -> bool {
        let h = self.header;
        let g = open::geometry_of(h);
        &&& r is Need ==> after.l1_table@ == l1_table && read.is_prefix_of(after.read@)
        &&& match next_table(l1_table, from) {
            Some(j) => {
                &&& r == RebuildTurn::Need(RebuildNeed::Table(l1_table[j], g.entries() as u64))
                &&& after.stage == RebuildStage::Table(j as usize)
                &&& after.seen@ == seen
                &&& after.header == h
            },
            None => {
                let all = seen + rebuild::reftable_run(h);
                match rebuild::counted(uncounted(rebuild::max_clusters(h) as u64), g.cs(), all) {
                    Err(e) => r == RebuildTurn::Refused(e),
                    Ok(c) => match with_blocks(h, c) {
                        None => r == RebuildTurn::Refused(Error::NotEnoughSpaceForRefcounts),
                        Some((counts, table)) => {
                            &&& r == RebuildTurn::Need(RebuildNeed::WriteHeader)
                            &&& after.stage == RebuildStage::Write(1)
                            &&& after.table@ == table
                            &&& after.counts.counts@ == counts
                            &&& after.seen@ == all
                            &&& after.header == with_lazy(h, true)
                        },
                    },
                }
            },
        }
    }

    /// Goes on with the L2 tables from an L1 index on.
    fn tables(&mut self, from: usize) -> (r: RebuildTurn)
        requires
            old(self).planned(),
            old(self).read_up_to(from as int),
            from <= old(self).l1_table@.len(),
        ensures
            r is Need ==> final(self).wf(),
            old(self).went_on(
                final(self),
                old(self).l1_table@,
                from as int,
                old(self).seen@,
                old(self).read@,
                r,
            ),
    {
        let mut i: usize = from;
        while i < self.l1_table.len()
            invariant
                *self == (Rebuilding { read: self.read, ..*old(self) }),
                old(self).read@.is_prefix_of(self.read@),
                self.planned(),
                self.read_up_to(i as int),
                i <= self.l1_table@.len(),
                next_table(self.l1_table@, from as int) == next_table(self.l1_table@, i as int),
            decreases self.l1_table@.len() - i,
        {
            if self.l1_table[i] != 0 {
                self.stage = RebuildStage::Table(i);
                let entries: u64 = self.counts.geometry.l2_entries();
                return RebuildTurn::Need(RebuildNeed::Table(self.l1_table[i], entries));
            }
            proof {
                self.skips(i as int);
            }
            self.read = Ghost(self.read@.push(Seq::empty()));
            i = i + 1;
        }
        self.finish()
    }

    /// Counts the refcount table, and finds clusters for the new blocks.
    fn finish(&mut self) -> (r: RebuildTurn)
        requires
            old(self).planned(),
            old(self).read_up_to(old(self).l1_table@.len() as int),
        ensures
            r is Need ==> final(self).wf(),
            old(self).went_on(
                final(self),
                old(self).l1_table@,
                old(self).l1_table@.len() as int,
                old(self).seen@,
                old(self).read@,
                r,
            ),
    {
        let ghost h = self.header;
        let ghost cs = open::geometry_of(h).cs();
        let ghost zero = uncounted(self.plan.max_clusters);
        let ghost run = rebuild::reftable_run(h);
        proof {
            self.counts.geometry.bounds();
            rebuild::counted_concat(zero, cs, self.seen@, run, run.len() as int);
            rebuild::count_refs_len(zero, cs, self.seen@ + run, (self.seen@ + run).len() as int);
        }
        match self.counts.add_refcount_table(&self.header) {
            Ok(()) => {},
            Err(e) => {
                return RebuildTurn::Refused(e);
            },
        }
        self.seen = Ghost(self.seen@ + run);
        proof {
            header_is_counted(self.header, self.plan.max_clusters, self.seen@);
            rebuild::blocks_hold_every_count(h, rebuild::refblocks(h) - 1);
            rebuild::table_is_small(h);
            self.counts.geometry.bounds();
            let free = open::unreferenced(
                self.counts.counts@,
                self.counts.counts@.len() as int,
                cs,
            );
            self.counts.in_range();
            open::unreferenced_are_clusters(
                self.counts.counts@,
                self.counts.counts@.len() as int,
                cs,
            );
            refblocks::settling_keeps_lengths(
                self.counts.counts@,
                Seq::new(self.plan.table_entries as nat, |j: int| 0u64),
                cs,
                cs / 2,
                rebuild::refblocks(h),
                free,
            );
        }
        match self.counts.alloc_refblocks(self.plan) {
            Ok(table) => {
                self.writes = rebuild::write_refblocks(&table);
                self.table = table;
            },
            Err(_) => {
                return RebuildTurn::Refused(Error::NotEnoughSpaceForRefcounts);
            },
        }
        rebuild::set_lazy_refcounts(&mut self.header, true);
        self.stage = RebuildStage::Write(1);
        proof {
            rebuild::sizes_are_small(h);
        }
        RebuildTurn::Need(RebuildNeed::WriteHeader)
    }

    /// An entry of the L1 table that points at no L2 table adds nothing.
    proof fn skips(&self, i: int)
        requires
            0 <= i < self.l1_table@.len(),
            self.read_up_to(i),
            self.l1_table@[i] == 0,
        ensures
            (Rebuilding { read: Ghost(self.read@.push(Seq::empty())), ..*self }).read_up_to(i + 1),
    {
        let bits = self.header.cluster_bits;
        tables_refs_prefix(self.l1_table@, self.read@, Seq::empty(), bits, i);
        let now = self.read@.push(Seq::empty());
        assert(tables_refs(self.l1_table@, now, bits, i + 1) =~= tables_refs(
            self.l1_table@,
            self.read@,
            bits,
            i,
        ));
    }

    /// What the next write is.
    pub open spec fn next_write(&self, k: int) -> RebuildTurn {
        if k >= self.writes@.len() {
            RebuildTurn::Rebuilt
        } else {
            match self.writes@[k] {
                Write::Header(_) => RebuildTurn::Need(RebuildNeed::WriteHeader),
                Write::Block(i) => RebuildTurn::Need(
                    RebuildNeed::WriteBlock(self.table@[i as int], i),
                ),
                Write::Table => RebuildTurn::Need(
                    RebuildNeed::WriteTable(self.header.refcount_table_offset),
                ),
            }
        }
    }

    /// Takes the rebuild a step further.
    pub fn rebuild_refcounts(&mut self, given: OpenGiven) -> (r: RebuildTurn)
        requires
            old(self).wf(),
        ensures
            r is Need || r is Rebuilt ==> final(self).wf(),
            ({
                let h = old(self).header;
                let g = open::geometry_of(h);
                match (old(self).stage, given) {
                    (RebuildStage::Size, OpenGiven::Size(n)) => if n < g.cs() {
                        r == RebuildTurn::Unexpected
                    } else {
                        let first = seq![0u64] + rebuild::l1_run(h);
                        match rebuild::plan_error(h, n) {
                            Some(e) => r == RebuildTurn::Refused(e),
                            None => match rebuild::counted(
                                uncounted(rebuild::max_clusters(h) as u64),
                                g.cs(),
                                first,
                            ) {
                                Err(e) => r == RebuildTurn::Refused(e),
                                Ok(_) => {
                                    &&& r == RebuildTurn::Need(
                                        RebuildNeed::Table(h.l1_table_offset, h.l1_size as u64),
                                    )
                                    &&& final(self).stage == RebuildStage::L1
                                    &&& final(self).seen@ == first
                                    &&& final(self).header == h
                                },
                            },
                        }
                    },
                    (RebuildStage::L1, OpenGiven::Table(t)) => if t@.len() != h.l1_size {
                        r == RebuildTurn::Unexpected
                    } else {
                        old(self).went_on(
                            final(self),
                            opening::masked(t@),
                            0,
                            old(self).seen@,
                            Seq::empty(),
                            r,
                        )
                    },
                    (RebuildStage::Table(i), OpenGiven::Table(t)) => if t@.len() != g.entries() {
                        r == RebuildTurn::Unexpected
                    } else {
                        let refs = rebuild::table_refs(
                            old(self).l1_table@[i as int],
                            t@,
                            h.cluster_bits,
                        );
                        match rebuild::stepped(old(self).counts, refs) {
                            Err(e) => r == RebuildTurn::Refused(e),
                            Ok(_) => old(self).went_on(
                                final(self),
                                old(self).l1_table@,
                                i + 1,
                                old(self).seen@ + refs,
                                old(self).read@.push(t@),
                                r,
                            ),
                        }
                    },
                    (RebuildStage::Write(k), _) => {
                        &&& r == old(self).next_write(k as int)
                        &&& final(self).stage == (if k < old(self).writes@.len() {
                            RebuildStage::Write((k + 1) as usize)
                        } else {
                            RebuildStage::Over
                        })
                        &&& final(self).header == (if k < old(self).writes@.len() && old(
                            self,
                        ).writes@[k as int] is Header {
                            with_lazy(h, old(self).writes@[k as int]->Header_0)
                        } else {
                            h
                        })
                        &&& final(self).table == old(self).table
                        &&& final(self).counts == old(self).counts
                        &&& final(self).writes == old(self).writes
                        &&& final(self).l1_table == old(self).l1_table
                        &&& final(self).read == old(self).read
                        &&& final(self).seen == old(self).seen
                    },
                    (RebuildStage::Over, _) => r == RebuildTurn::Rebuilt,
                    _ => r == RebuildTurn::Unexpected,
                }
            }),
    {
        match self.stage {
            RebuildStage::Size => match given {
                OpenGiven::Size(n) => self.begin(n),
                _ => RebuildTurn::Unexpected,
            },
            RebuildStage::L1 => match given {
                OpenGiven::Table(t) => {
                    if t.len() as u64 != self.header.l1_size as u64 {
                        return RebuildTurn::Unexpected;
                    }
                    self.l1_table = opening::table_offsets(&t);
                    self.tables(0)
                },
                _ => RebuildTurn::Unexpected,
            },
            RebuildStage::Table(i) => match given {
                OpenGiven::Table(t) => {
                    if t.len() as u64 != self.counts.geometry.l2_entries() {
                        return RebuildTurn::Unexpected;
                    }
                    let len: usize = self.l1_table.len();
                    let at: u64 = self.l1_table[i];
                    let ghost zero = uncounted(self.plan.max_clusters);
                    let ghost cs = self.counts.geometry.cs();
                    let ghost refs = rebuild::table_refs(at, t@, self.header.cluster_bits);
                    proof {
                        rebuild::counted_concat(zero, cs, self.seen@, refs, refs.len() as int);
                    }
                    match self.counts.add_table(at, &t) {
                        Ok(()) => {},
                        Err(e) => {
                            return RebuildTurn::Refused(e);
                        },
                    }
                    proof {
                        tables_refs_prefix(
                            self.l1_table@,
                            self.read@,
                            t@,
                            self.header.cluster_bits,
                            i as int,
                        );
                    }
                    self.seen = Ghost(self.seen@ + refs);
                    self.read = Ghost(self.read@.push(t@));
                    assert(self.seen@ =~= seq![0u64] + rebuild::l1_run(self.header) + tables_refs(
                        self.l1_table@,
                        self.read@,
                        self.header.cluster_bits,
                        i + 1,
                    ));
                    self.tables(i + 1)
                },
                _ => RebuildTurn::Unexpected,
            },
            RebuildStage::Write(k) => {
                if k >= self.writes.len() {
                    self.stage = RebuildStage::Over;
                    return RebuildTurn::Rebuilt;
                }
                proof {
                    blocks_are_settled(*self);
                    rebuild::table_is_small(self.header);
                    rebuild::written_blocks_are_in_the_table(self.table@, k as int);
                }
                self.stage = RebuildStage::Write(k + 1);
                match self.writes[k] {
                    Write::Header(lazy) => {
                        proof {
                            let f = self.header.compatible_features;
                            assert(f & !1u64 & 1u64 == 0) by (bit_vector);
                        }
                        rebuild::set_lazy_refcounts(&mut self.header, lazy);
                        RebuildTurn::Need(RebuildNeed::WriteHeader)
                    },
                    Write::Block(i) => RebuildTurn::Need(
                        RebuildNeed::WriteBlock(self.table[i], i),
                    ),
                    Write::Table => RebuildTurn::Need(
                        RebuildNeed::WriteTable(self.header.refcount_table_offset),
                    ),
                }
            },
            RebuildStage::Over => RebuildTurn::Rebuilt,
        }
    }

    /// The size of the file is known.
    fn begin(&mut self, file_size: u64) -> (r: RebuildTurn)
        requires
            old(self).wf(),
            old(self).stage is Size,
        ensures
            r is Need ==> final(self).wf(),
            ({
                let h = old(self).header;
                let g = open::geometry_of(h);
                let first = seq![0u64] + rebuild::l1_run(h);
                if file_size < g.cs() {
                    r == RebuildTurn::Unexpected
                } else {
                    match rebuild::plan_error(h, file_size) {
                        Some(e) => r == RebuildTurn::Refused(e),
                        None => match rebuild::counted(
                            uncounted(rebuild::max_clusters(h) as u64),
                            g.cs(),
                            first,
                        ) {
                            Err(e) => r == RebuildTurn::Refused(e),
                            Ok(_) => {
                                &&& r == RebuildTurn::Need(
                                    RebuildNeed::Table(h.l1_table_offset, h.l1_size as u64),
                                )
                                &&& final(self).stage == RebuildStage::L1
                                &&& final(self).seen@ == first
                                &&& final(self).header == h
                            },
                        },
                    }
                }
            }),
    {
        if file_size < self.counts.geometry.cluster_size() {
            return RebuildTurn::Unexpected;
        }
        let plan = match rebuild::plan(&self.header, file_size) {
            Ok(plan) => plan,
            Err(e) => {
                return RebuildTurn::Refused(e);
            },
        };
        let counts = match Rebuild::start(&self.header, plan) {
            Ok(counts) => counts,
            Err(e) => {
                return RebuildTurn::Refused(e);
            },
        };
        self.plan = plan;
        self.counts = counts;
        self.seen = Ghost(seq![0u64] + rebuild::l1_run(self.header));
        self.read = Ghost(Seq::empty());
        assert(self.seen@ =~= seq![0u64] + rebuild::l1_run(self.header) + tables_refs(
            self.l1_table@,
            self.read@,
            self.header.cluster_bits,
            0,
        ));
        self.stage = RebuildStage::L1;
        RebuildTurn::Need(
            RebuildNeed::Table(self.header.l1_table_offset, self.header.l1_size as u64),
        )
    }

    /// The counts of block `i`, filled up with zeroes.
    pub open spec fn block_counts(&self, i: int) -> Seq<u16> {
        Seq::new(
            self.plan.block_entries as nat,
            |j: int|
                if i * self.plan.block_entries + j < self.counts.counts@.len() {
                    self.counts.counts@[i * self.plan.block_entries + j]
                } else {
                    0u16
                },
        )
    }

    /// The counts of a block that has to be written.
    pub fn block(&self, i: usize) -> (r: Vec<u16>)
        requires
            self.wf(),
            self.stage is Write,
            refblocks::has_block(self.table@, i as int),
        ensures
            r@ == self.block_counts(i as int),
    {
        proof {
            blocks_are_settled(*self);
            rebuild::blocks_hold_every_count(self.header, i as int);
            self.counts.geometry.bounds();
        }
        self.counts.refblock(i, self.plan)
    }
}

/// While tables are read, every count is the number of references that were seen to its cluster.
pub proof fn counts_are_what_was_seen(b: Rebuilding, i: int)
    requires
        b.wf(),
        b.stage is L1 || b.stage is Table,
        0 <= i < b.counts.counts@.len(),
    ensures
        b.counts.counts@[i] == rebuild::references(
            b.seen@,
            open::geometry_of(b.header).cs(),
            i,
        ),
{
    let cs = open::geometry_of(b.header).cs();
    b.counts.geometry.bounds();
    let zero = uncounted(b.plan.max_clusters);
    rebuild::count_refs_len(zero, cs, b.seen@, b.seen@.len() as int);
    rebuild::counts_are_references(zero, cs, b.seen@, i);
}

/// Once all is written, the header that was written last does not say that the counts lag behind.
pub proof fn a_rebuilt_image_is_not_lazy(b: Rebuilding)
    requires
        b.wf(),
        b.stage is Over,
    ensures
        b.header.compatible_features & qcow::COMPATIBLE_FEATURES_LAZY_REFCOUNTS == 0,
{
}

/// The header is the first thing that is counted.
proof fn header_is_counted(h: QcowHeader, n: u64, seen: Seq<u64>)
    requires
        open::geometry_of(h).wf(),
        seen.len() > 0,
        seen[0] == 0,
    ensures
        rebuild::counted(uncounted(n), open::geometry_of(h).cs(), seen) matches Ok(c) ==> c.len()
            == n && n > 0 && c[0] != 0,
{
    let cs = open::geometry_of(h).cs();
    open::geometry_of(h).bounds();
    let zero = uncounted(n);
    rebuild::count_refs_len(zero, cs, seen, seen.len() as int);
    if rebuild::counted(zero, cs, seen) is Ok {
        assert(seen.contains(0u64));
        assert(0int / cs == 0) by (nonlinear_arith)
            requires
                cs > 0,
        ;
        rebuild::what_is_referred_to_is_counted(zero, cs, seen, 0u64);
        rebuild::counts_are_references(zero, cs, seen, 0);
    }
}

/// What holds of the counts and the refcount table once all is counted.
proof fn blocks_are_settled(b: Rebuilding)
    requires
        b.planned(),
        b.all_counted(),
    ensures
        ({
            let h = b.header;
            let cs = open::geometry_of(h).cs();
            &&& b.counts.counts@.len() == rebuild::max_clusters(h)
            &&& b.table@.len() == rebuild::table_entries(h)
            &&& refblocks::is_sound(b.counts.counts@, b.table@, cs, b.seen@)
            &&& forall|j: int|
                0 <= j < rebuild::refblocks(h) ==> !(#[trigger] refblocks::is_wanted(
                    b.counts.counts@,
                    b.table@,
                    cs / 2,
                    j,
                ))
            &&& forall|j: int|
                #[trigger] refblocks::has_block(b.table@, j) ==> j < rebuild::refblocks(h)
                    && refblocks::is_used(b.counts.counts@, cs / 2, j)
        }),
{
    let h = b.header;
    let g = open::geometry_of(h);
    let cs = g.cs();
    g.bounds();
    rebuild::sizes_are_small(h);
    rebuild::table_is_small(h);
    let zero = uncounted(b.plan.max_clusters);
    let c = rebuild::counted(zero, cs, b.seen@)->Ok_0;
    rebuild::count_refs_len(zero, cs, b.seen@, b.seen@.len() as int);
    header_is_counted(h, b.plan.max_clusters, b.seen@);
    assert forall|i: int| 0 <= i < c.len() implies #[trigger] c[i] == rebuild::references(
        b.seen@,
        cs,
        i,
    ) by {
        rebuild::counts_are_references(zero, cs, b.seen@, i);
    }
    assert(c.len() * cs <= u64::MAX) by (nonlinear_arith)
        requires
            0 <= c.len() <= 35_000_000,
            0 < cs <= 0x20_0000,
    ;
    let entries = rebuild::table_entries(h) as nat;
    let empty = Seq::new(entries, |j: int| 0u64);
    refblocks::nothing_assigned_is_sound(c, entries, cs, b.seen@);
    refblocks::settled_is_sound(c, empty, cs, cs / 2, rebuild::refblocks(h), b.seen@);
    let free = open::unreferenced(c, c.len() as int, cs);
    open::unreferenced_are_clusters(c, c.len() as int, cs);
    assert forall|x: int| 0 <= x < free.len() implies 0 <= #[trigger] free[x] as int / cs
        < c.len() by {
        assert(free.contains(free[x]));
    }
    assert forall|j: int| #[trigger] refblocks::has_block(b.table@, j) implies j
        < rebuild::refblocks(h) && refblocks::is_used(b.counts.counts@, cs / 2, j) by {
        refblocks::only_used_blocks_are_settled(
            c,
            empty,
            cs,
            cs / 2,
            rebuild::refblocks(h),
            free,
            j,
        );
    }
}

/// What is written are the references: for every cluster that there can be, the count in the file
/// says how often the header, the L1 table, the L2 tables and their entries, the refcount table and
/// the new blocks of counts refer to the cluster.
pub proof fn every_count_is_the_number_of_references(b: Rebuilding, i: int)
    requires
        b.wf(),
        b.stage is Write || b.stage is Over,
        0 <= i < rebuild::max_clusters(b.header),
    ensures
        count_in_file(b, i) == rebuild::references(
            image_refs(b.header, b.l1_table@, b.read@) + refblocks::block_list(b.table@),
            open::geometry_of(b.header).cs(),
            i,
        ),
{
    let h = b.header;
    let g = open::geometry_of(h);
    let cs = g.cs();
    let per = cs / 2;
    g.bounds();
    blocks_are_settled(b);
    let counts = b.counts.counts@;
    rebuild::references_add_up(b.seen@, refblocks::block_list(b.table@), cs, i);
    rebuild::blocks_hold_every_count(h, i);
    lemma_fundamental_div_mod(i, per);
    assert((i / per) * per == per * (i / per)) by (nonlinear_arith);
    lemma_mod_bound(i, per);
    assert(!refblocks::is_wanted(counts, b.table@, per, i / per));
    if !refblocks::has_block(b.table@, i / per) {
        assert(counts[i] == 0) by {
            if counts[i] != 0 {
                assert(refblocks::is_used(counts, per, i / per));
            }
        }
    }
}

/// Nothing that the image refers to is overwritten by a rebuild. The refcount table stays within
/// its clusters. Every block of counts goes into a cluster of its own, one of those that there can
/// be, that neither the header, the tables, the data of the guest nor the refcount table has a
/// part in.
pub proof fn a_rebuild_overwrites_nothing(b: Rebuilding, j: int)
    requires
        b.wf(),
        b.stage is Write || b.stage is Over,
    ensures
        ({
            let h = b.header;
            let cs = open::geometry_of(h).cs();
            let at = b.table@[j] as int;
            &&& b.table@.len() * 8 <= h.refcount_table_clusters * cs
            &&& refblocks::has_block(b.table@, j) ==> {
                &&& at % cs == 0
                &&& 0 < at / cs < rebuild::max_clusters(h)
                &&& rebuild::references(image_refs(h, b.l1_table@, b.read@), cs, at / cs) == 0
                &&& count_in_file(b, at / cs) == 1
                &&& forall|k: int|
                    0 <= k < b.table@.len() && k != j ==> #[trigger] b.table@[k] != b.table@[j]
            }
        }),
{
    let h = b.header;
    let g = open::geometry_of(h);
    let cs = g.cs();
    g.bounds();
    blocks_are_settled(b);
    rebuild::table_is_small(h);
    if refblocks::has_block(b.table@, j) {
        let i = b.table@[j] as int / cs;
        every_count_is_the_number_of_references(b, i);
        rebuild::references_add_up(b.seen@, refblocks::block_list(b.table@), cs, i);
        assert(b.counts.counts@[i] == 1);
        lemma_fundamental_div_mod(b.table@[j] as int, cs);
        if i == 0 {
            assert(cs * 0 == 0) by (nonlinear_arith);
        }
    }
}

/// The refcount table is short enough for its entries to have indices.
pub(crate) proof fn table_has_indices(b: Rebuilding)
    requires
        b.wf(),
        b.stage is Write || b.stage is Over,
    ensures
        b.table@.len() <= usize::MAX,
{
    blocks_are_settled(b);
    rebuild::table_is_small(b.header);
}

/// The header is counted, so that the first entry of the refcount table points at a block.
pub(crate) proof fn the_header_has_a_block(b: Rebuilding)
    requires
        b.wf(),
        b.stage is Write || b.stage is Over,
    ensures
        refblocks::has_block(b.table@, 0),
{
    let h = b.header;
    let g = open::geometry_of(h);
    let cs = g.cs();
    let per = cs / 2;
    g.bounds();
    blocks_are_settled(b);
    rebuild::sizes_are_small(h);
    assert(b.seen@[0] == 0);
    assert(b.seen@.contains(0u64));
    assert(0int / cs == 0 && 0int / per == 0) by (nonlinear_arith)
        requires
            cs > 0,
            per > 0,
    ;
    rebuild::what_is_referred_to_is_counted(uncounted(b.plan.max_clusters), cs, b.seen@, 0u64);
    rebuild::references_begin_at_zero(refblocks::block_list(b.table@), cs, 0);
    assert(b.counts.counts@[0] != 0);
    assert(refblocks::is_used(b.counts.counts@, per, 0int / per));
    rebuild::blocks_hold_every_count(h, 0);
    assert(!refblocks::is_wanted(b.counts.counts@, b.table@, per, 0));
}

/// The refcount table as it is written: an entry points at a block exactly where the block has a
/// count that is not zero, and every entry that the next opening of the image reads, as far as the
/// table has room for it, is written.
pub proof fn the_table_points_at_what_is_counted(b: Rebuilding, j: int)
    requires
        b.wf(),
        b.stage is Write || b.stage is Over,
        0 <= j < rebuild::table_room(b.header),
        j < open::refcount_clusters(b.header) || j < rebuild::refblocks(b.header),
    ensures
        j < b.table@.len(),
        b.table@[j] != 0 <==> refblocks::is_used(
            b.counts.counts@,
            open::geometry_of(b.header).cs() / 2,
            j,
        ),
{
    let h = b.header;
    let cs = open::geometry_of(h).cs();
    open::geometry_of(h).bounds();
    blocks_are_settled(b);
    rebuild::sizes_are_small(h);
    assert(refblocks::has_block(b.table@, j) <==> b.table@[j] != 0);
    if refblocks::is_used(b.counts.counts@, cs / 2, j) {
        let i = choose|i: int|
            0 <= i < b.counts.counts@.len() && #[trigger] (i / (cs / 2)) == j
                && b.counts.counts@[i] != 0;
        rebuild::blocks_hold_every_count(h, i);
        assert(!refblocks::is_wanted(b.counts.counts@, b.table@, cs / 2, j));
    }
}

/// The count of a cluster as the file holds it once a rebuild has ended: that in the block that the
/// refcount table points at, and zero where it points at none.
pub open spec fn count_in_file(b: Rebuilding, i: int) -> int {
    let per = open::geometry_of(b.header).cs() / 2;
    if 0 <= i < rebuild::max_clusters(b.header) && refblocks::has_block(b.table@, i / per) {
        b.block_counts(i / per)[i % per] as int
    } else {
        0
    }
}

/// What was read for a rebuild are the tables of an image: its L1 table, and the L2 tables as the
/// file holds them.
pub open spec fn tables_are_those_of(b: Rebuilding, m: Mapping, v: Volume) -> bool {
    &&& m.geometry == open::geometry_of(b.header)
    &&& m.l1_table@.len() <= b.l1_table@.len()
    &&& forall|k: int| 0 <= k < m.l1_table@.len() ==> #[trigger] m.l1_table@[k] == b.l1_table@[k]
    &&& forall|k: int| !(#[trigger] m.cached().contains_key(k))
    &&& forall|k: int|
        0 <= k < m.l1_table@.len() && #[trigger] m.l1_table@[k] != 0 ==> b.read@[k] == Seq::new(
            m.geometry.entries() as nat,
            |j: int| contents::raw_entry(v.file, m.l1_table@[k] + 8 * j),
        )
}

/// Every table and every plain cluster begins where a cluster of the file does.
pub open spec fn is_aligned(m: Mapping, v: Volume) -> bool {
    &&& forall|k: int|
        0 <= k < m.l1_table@.len() ==> #[trigger] m.l1_table@[k] as int % m.geometry.cs() == 0
    &&& forall|a: int|
        contents::covered(m, a) && qcow::map::is_plain(#[trigger] contents::entry_at(m, v, a))
            ==> contents::entry_at(m, v, a) as int % m.geometry.cs() == 0
}

/// What a table that an L1 table points at refers to, the image does.
proof fn tables_refer(
    l1_table: Seq<u64>,
    tables: Seq<Seq<u64>>,
    cluster_bits: u32,
    n: int,
    k: int,
    at: u64,
)
    requires
        0 <= k < n,
        l1_table[k] != 0,
        rebuild::table_refs(l1_table[k], tables[k], cluster_bits).contains(at),
    ensures
        tables_refs(l1_table, tables, cluster_bits, n).contains(at),
    decreases n,
{
    let before = tables_refs(l1_table, tables, cluster_bits, n - 1);
    let now = tables_refs(l1_table, tables, cluster_bits, n);
    if k < n - 1 {
        tables_refer(l1_table, tables, cluster_bits, n - 1, k, at);
        let i = choose|i: int| 0 <= i < before.len() && before[i] == at;
        assert(now[i] == at);
    } else {
        let last = rebuild::table_refs(l1_table[k], tables[k], cluster_bits);
        let i = choose|i: int| 0 <= i < last.len() && last[i] == at;
        assert(now[before.len() + i] == at);
    }
}

/// A cluster that a table of the image refers to is counted in the file.
proof fn what_tables_refer_to_is_counted(b: Rebuilding, k: int, at: u64)
    requires
        b.wf(),
        b.stage is Write || b.stage is Over,
        0 <= k < b.l1_table@.len(),
        b.l1_table@[k] != 0,
        rebuild::table_refs(b.l1_table@[k], b.read@[k], b.header.cluster_bits).contains(at),
    ensures
        count_in_file(b, at as int / open::geometry_of(b.header).cs()) > 0,
{
    let h = b.header;
    let g = open::geometry_of(h);
    let cs = g.cs();
    g.bounds();
    let bits = h.cluster_bits;
    let head = seq![0u64] + rebuild::l1_run(h);
    let tables = tables_refs(b.l1_table@, b.read@, bits, b.l1_table@.len() as int);
    let all = image_refs(h, b.l1_table@, b.read@);
    tables_refer(b.l1_table@, b.read@, bits, b.l1_table@.len() as int, k, at);
    let j = choose|j: int| 0 <= j < tables.len() && tables[j] == at;
    assert(all[head.len() + j] == at);
    let zero = uncounted(b.plan.max_clusters);
    rebuild::what_is_referred_to_is_counted(zero, cs, all, at);
    let i = at as int / cs;
    every_count_is_the_number_of_references(b, i);
    rebuild::references_add_up(all, refblocks::block_list(b.table@), cs, i);
    rebuild::references_begin_at_zero(refblocks::block_list(b.table@), cs, i);
}

/// After a rebuild, every cluster that the guest's bytes come from is counted, so that none of them
/// is handed out for something else: counts of zero are those of clusters that nothing uses.
pub proof fn rebuilt_counts_cover_the_image(b: Rebuilding, m: Mapping, v: Volume)
    requires
        b.wf(),
        b.stage is Write || b.stage is Over,
        m.wf(),
        tables_are_those_of(b, m, v),
        is_aligned(m, v),
    ensures
        contents::counts_cover(m, v, |i: int| count_in_file(b, i)),
{
    let g = m.geometry;
    let cs = g.cs();
    let bits = b.header.cluster_bits;
    let count = |i: int| count_in_file(b, i);
    g.bounds();
    assert forall|x: int| #[trigger] contents::used(m, v, x) implies count(x / cs) > 0 by {
        if exists|k: int|
            0 <= k < m.l1_table@.len() && #[trigger] m.l1_table@[k] != 0 && m.l1_table@[k] <= x
                < m.l1_table@[k] + cs {
            let k = choose|k: int|
                0 <= k < m.l1_table@.len() && #[trigger] m.l1_table@[k] != 0 && m.l1_table@[k] <= x
                    < m.l1_table@[k] + cs;
            let at = b.l1_table@[k];
            assert(rebuild::table_refs(at, b.read@[k], bits)[0] == at);
            what_tables_refer_to_is_counted(b, k, at);
            in_its_cluster(at as int, cs, x);
        } else {
            let a = choose|a: int|
                contents::covered(m, a) && !contents::clear_of_byte(
                    m,
                    #[trigger] contents::entry_at(m, v, a),
                    x,
                );
            contents::entry_facts(m, v, a);
            let k = g.l1_of(a);
            let j = g.l2_of(a);
            assert(m.l1_table@[k] != 0);
            assert(!m.cached().contains_key(k));
            let table = b.read@[k];
            let raw = table[j];
            let e = contents::entry_at(m, v, a);
            assert(e == qcow::map::decoded(raw));
            qcow::map::flag_bits();
            let at = if qcow::map::is_plain(e) {
                e
            } else {
                (x / cs * cs) as u64
            };
            if qcow::map::is_plain(e) {
                qcow::map::plain_bounds(e);
                assert(0u64 & 0x00ff_ffff_ffff_fe00u64 == 0u64) by (bit_vector);
                assert(rebuild::entry_refs(raw, bits)[0] == at);
                in_its_cluster(at as int, cs, x);
            } else {
                assert(raw & 0x00ff_ffff_ffff_fe00u64 & 0x4000_0000_0000_0000u64 == 0u64)
                    by (bit_vector);
                geometry::payload_bounds(e, bits);
                geometry::host_clusters_cover_the_payload(e, bits, x);
                assert(e == raw);
                lemma_fundamental_div_mod(x, cs);
                lemma_div_pos_is_pos(x, cs);
                assert(x / cs * cs == cs * (x / cs) && 0 <= cs * (x / cs)) by (nonlinear_arith)
                    requires
                        cs > 0,
                        x / cs >= 0,
                ;
                lemma_fundamental_div_mod_converse(x / cs * cs, cs, x / cs, 0);
            }
            assert(rebuild::entry_refs(raw, bits).contains(at));
            rebuild::entries_refer(table, bits, table.len() as int, j, at);
            let refs = rebuild::entries_refs(table, bits, table.len() as int);
            let i = choose|i: int| 0 <= i < refs.len() && refs[i] == at;
            assert(rebuild::table_refs(b.l1_table@[k], table, bits)[1 + i] == at);
            what_tables_refer_to_is_counted(b, k, at);
        }
    }
}

/// A byte of a cluster lies in that cluster.
pub(crate) proof fn in_its_cluster(at: int, cs: int, x: int)
    requires
        0 < cs,
        at % cs == 0,
        at <= x < at + cs,
    ensures
        x / cs == at / cs,
{
    lemma_fundamental_div_mod(at, cs);
    assert(cs * (at / cs) == (at / cs) * cs) by (nonlinear_arith);
    lemma_fundamental_div_mod_converse(x, cs, at / cs, x - at);
}

} // verus!
