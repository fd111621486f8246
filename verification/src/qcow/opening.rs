//! Opening an image, step by step.
//!
//! A step says what it needs of the file, or that something else has to be done first; what came of
//! that is given to the step that follows.

use vstd::arithmetic::div_mod::*;
use vstd::prelude::*;

use crate::qcow;
use crate::qcow::contents;
use crate::qcow::contents::Volume;
use crate::qcow::counts;
use crate::qcow::counts::{CountBlock, RefCounts};
use crate::qcow::geometry;
use crate::qcow::geometry::Geometry;
use crate::qcow::header::QcowHeader;
use crate::qcow::map::{Mapping, TableView};
use crate::qcow::open;
use crate::qcow::Error;

verus! {

/// What a step needs before the next.
#[derive(Clone, Copy, Debug, PartialEq, Eq, Structural)]
pub enum OpenNeed {
    /// The backing file that the header names has to be opened.
    Backing,
    /// The size of the file.
    FileSize,
    /// The number at that offset.
    Entry(u64),
    /// The count at that offset.
    Count(u64),
    /// The counts have to be rebuilt.
    Rebuild,
    /// The table at that offset, of so many entries.
    Table(u64, u64),
}

/// What came of what a step needed.
pub enum OpenGiven {
    Done,
    Size(u64),
    Entry(u64),
    Count(u16),
    Table(Vec<u64>),
}

/// How a step ends.
#[derive(Clone, Copy, Debug, PartialEq, Eq, Structural)]
pub enum OpenTurn {
    Need(OpenNeed),
    /// The image is open.
    Opened,
    /// The image cannot be opened.
    Refused(Error),
    /// What was given is not what was needed.
    Unexpected,
}

/// How far opening has come.
#[derive(Clone, Copy, Debug, PartialEq, Eq, Structural)]
pub enum OpenStage {
    /// The header was read.
    Header,
    /// It waits for the backing file.
    Backing,
    /// It waits for the size of the file.
    Size,
    /// It waits for the first entry of the refcount table.
    FirstBlock,
    /// It waits for the first count of the block at that offset.
    FirstCount(u64),
    /// It waits until the counts are rebuilt.
    Rebuild,
    /// It waits for the L1 table.
    L1,
    /// It waits for the refcount table.
    RefcountTable,
    /// The image is open.
    Open,
}

/// An image that is opened.
pub struct Opening {
    pub header: QcowHeader,
    pub read_only: bool,
    pub stage: OpenStage,
    /// The L1 table, without the flags of its entries.
    pub l1_table: Vec<u64>,
    /// What is known of the image once it is open.
    pub opened: Option<(Mapping, RefCounts)>,
}

/// The entries of an L1 table without their flags.
pub open spec fn masked(table: Seq<u64>) -> Seq<u64> {
    Seq::new(table.len(), |i: int| table[i] & qcow::TABLE_OFFSET_MASK)
}

/// The entries of an L1 table without their flags.
pub fn table_offsets(table: &Vec<u64>) -> (r: Vec<u64>)
    ensures
        r@ == masked(table@),
{
    let mut out: Vec<u64> = Vec::new();
    let mut i: usize = 0;
    while i < table.len()
        invariant
            i <= table@.len(),
            out@ =~= masked(table@.take(i as int)),
        decreases table@.len() - i,
    {
        out.push(table[i] & qcow::TABLE_OFFSET_MASK);
        i = i + 1;
    }
    assert(table@.take(table@.len() as int) =~= table@);
    out
}

/// How it goes on once the counts can be trusted.
pub open spec fn tables_next(h: QcowHeader) -> (OpenStage, OpenTurn) {
    if open::l2_tables(h) > qcow::MAX_RAM_POINTER_TABLE_SIZE {
        (
            OpenStage::Rebuild,
            OpenTurn::Refused(Error::TooManyL1Entries(open::l2_tables(h) as u64)),
        )
    } else {
        (
            OpenStage::L1,
            OpenTurn::Need(OpenNeed::Table(h.l1_table_offset, open::l2_tables(h) as u64)),
        )
    }
}

/// How it goes on once the first count is known.
pub open spec fn counts_next(h: QcowHeader, first_block: u64, first_count: u16) -> (
    OpenStage,
    OpenTurn,
) {
    if open::rebuild_needed(h, first_block, first_count) {
        (OpenStage::Rebuild, OpenTurn::Need(OpenNeed::Rebuild))
    } else {
        tables_next(h)
    }
}

/// The tables of an image that passed all checks lead to counts that have an offset.
proof fn counts_have_offsets(h: QcowHeader)
    requires
        open::geometry_of(h).wf(),
        h.size <= qcow::MAX_QCOW_FILE_SIZE,
        open::tables_error(h) is None,
        h.refcount_table_clusters >= 1,
    ensures
        1 <= open::refcount_clusters(h) <= qcow::MAX_RAM_POINTER_TABLE_SIZE,
        counts::is_addressable(
            open::refcount_clusters(h),
            open::geometry_of(h).cs() / 2,
            open::geometry_of(h).cs(),
        ),
{
    let g = open::geometry_of(h);
    g.bounds();
    let cs = g.cs();
    let n = (open::data_clusters(h) + open::l1_clusters(h) + open::l2_tables(h) + 1) % 0x1_0000_0000;
    let rc = open::refcount_clusters(h);
    let data = geometry::ceil_div(n * 2, cs);
    let refs = geometry::ceil_div(data * 2, cs);
    assert(rc == data + refs);
    lemma_div_pos_is_pos(n * 2, cs);
    geometry::ceil_div_is_least(n * 2, cs, data - 1);
    lemma_div_pos_is_pos(data * 2, cs);
    geometry::ceil_div_is_least(data * 2, cs, refs - 1);
    assert(data * cs < n * 2 + cs) by (nonlinear_arith)
        requires
            (data - 1) * cs < n * 2,
    ;
    assert(refs * cs < data * 2 + cs) by (nonlinear_arith)
        requires
            (refs - 1) * cs < data * 2,
    ;
    assert(data <= data * cs) by (nonlinear_arith)
        requires
            data >= 0,
            cs >= 1,
    ;
    assert(rc * cs == data * cs + refs * cs) by (nonlinear_arith)
        requires
            rc == data + refs,
    ;
    let half = cs / 2;
    assert(rc * half * cs == (rc * cs) * half) by (nonlinear_arith);
    assert((rc * cs) * half <= 0x10_0000_0000 * 0x10_0000) by (nonlinear_arith)
        requires
            0 <= rc * cs <= 0x10_0000_0000,
            0 <= half <= 0x10_0000,
    ;
    open::counts_are_small(h);
}

impl Opening {
    /// Past the first step, the header's format was checked; past the third, so was its layout; past
    /// the L1 table, the sizes of the tables.
    pub open spec fn wf(&self) -> bool {
        &&& !(self.stage is Header) ==> open::format_error(self.header) is None
            && open::geometry_of(self.header).wf()
        &&& !(self.stage is Header || self.stage is Backing || self.stage is Size)
            ==> self.header.refcount_table_clusters >= 1
        &&& self.stage is L1 ==> open::l2_tables(self.header) <= qcow::MAX_RAM_POINTER_TABLE_SIZE
        &&& self.stage is RefcountTable ==> open::tables_error(self.header) is None
            && self.l1_table@.len() == open::l2_tables(self.header)
    }

    /// Starts with the header of the image.
    pub fn start(header: QcowHeader, read_only: bool) -> (r: Opening)
        ensures
            r.wf(),
            r.header == header,
            r.read_only == read_only,
            r.stage == OpenStage::Header,
            r.opened is None,
    {
        Opening {
            header,
            read_only,
            stage: OpenStage::Header,
            l1_table: Vec::new(),
            opened: None,
        }
    }

    /// What a step comes to, and how far opening is after it.
    pub open spec fn next(&self, given: OpenGiven) -> (OpenStage, OpenTurn) {
        let h = self.header;
        match (self.stage, given) {
            (OpenStage::Header, _) => match open::format_error(h) {
                Some(e) => (OpenStage::Header, OpenTurn::Refused(e)),
                None => if h.backing_file_path is Some {
                    (OpenStage::Backing, OpenTurn::Need(OpenNeed::Backing))
                } else {
                    (OpenStage::Size, OpenTurn::Need(OpenNeed::FileSize))
                },
            },
            (OpenStage::Backing, _) => (OpenStage::Size, OpenTurn::Need(OpenNeed::FileSize)),
            (OpenStage::Size, OpenGiven::Size(n)) => match open::layout_error(
                h,
                self.read_only,
                n,
            ) {
                Some(e) => (OpenStage::Size, OpenTurn::Refused(e)),
                None => (
                    OpenStage::FirstBlock,
                    OpenTurn::Need(OpenNeed::Entry(h.refcount_table_offset)),
                ),
            },
            (OpenStage::FirstBlock, OpenGiven::Entry(at)) => if at == 0 {
                counts_next(h, at, 0)
            } else {
                (OpenStage::FirstCount(at), OpenTurn::Need(OpenNeed::Count(at)))
            },
            (OpenStage::FirstCount(at), OpenGiven::Count(n)) => counts_next(h, at, n),
            (OpenStage::Rebuild, _) => tables_next(h),
            (OpenStage::L1, OpenGiven::Table(t)) => if t@.len() != open::l2_tables(h) {
                (OpenStage::L1, OpenTurn::Unexpected)
            } else {
                match open::tables_error(h) {
                    Some(e) => (OpenStage::L1, OpenTurn::Refused(e)),
                    None => (
                        OpenStage::RefcountTable,
                        OpenTurn::Need(
                            OpenNeed::Table(
                                h.refcount_table_offset,
                                open::refcount_clusters(h) as u64,
                            ),
                        ),
                    ),
                }
            },
            (OpenStage::RefcountTable, OpenGiven::Table(t)) => if t@.len()
                != open::refcount_clusters(h) {
                (OpenStage::RefcountTable, OpenTurn::Unexpected)
            } else {
                match open::address_space_error(h) {
                    Some(e) => (OpenStage::RefcountTable, OpenTurn::Refused(e)),
                    None => (OpenStage::Open, OpenTurn::Opened),
                }
            },
            (OpenStage::Open, _) => (OpenStage::Open, OpenTurn::Opened),
            (stage, _) => (stage, OpenTurn::Unexpected),
        }
    }

    /// The image is open: its tables are those that were read, no L2 table and no block of counts
    /// is in memory yet.
    pub open spec fn is_opened(&self, after: &Self, refcount_table: Seq<u64>) -> bool {
        let h = self.header;
        after.opened matches Some((m, c)) && {
            &&& m.wf()
            &&& m.geometry == open::geometry_of(h)
            &&& m.l1_table@ == self.l1_table@
            &&& !m.l1_dirty
            &&& m.has_backing == (h.backing_file_path is Some)
            &&& m.cached() == Map::<int, TableView>::empty()
            &&& c.wf()
            &&& c.table@ == refcount_table
            &&& !c.table_dirty
            &&& c.blocks@ == Map::<usize, CountBlock>::empty()
            &&& c.per_block == open::geometry_of(h).cs() / 2
            &&& c.cluster_size == open::geometry_of(h).cs()
        }
    }

    /// Goes on to the tables.
    fn tables(&mut self) -> (r: OpenTurn)
        requires
            old(self).wf(),
            !(old(self).stage is Header || old(self).stage is Backing || old(self).stage is Size),
        ensures
            final(self).wf(),
            final(self).header == old(self).header,
            final(self).read_only == old(self).read_only,
            final(self).l1_table == old(self).l1_table,
            final(self).opened == old(self).opened,
            (final(self).stage, r) == tables_next(old(self).header),
    {
        match open::l1_entries(&self.header) {
            Ok(n) => {
                self.stage = OpenStage::L1;
                OpenTurn::Need(OpenNeed::Table(self.header.l1_table_offset, n))
            },
            Err(e) => {
                self.stage = OpenStage::Rebuild;
                OpenTurn::Refused(e)
            },
        }
    }

    /// Goes on once the first count is known.
    fn first_count(&mut self, first_block: u64, first_count: u16) -> (r: OpenTurn)
        requires
            old(self).wf(),
            !(old(self).stage is Header || old(self).stage is Backing || old(self).stage is Size),
        ensures
            final(self).wf(),
            final(self).header == old(self).header,
            final(self).read_only == old(self).read_only,
            final(self).l1_table == old(self).l1_table,
            final(self).opened == old(self).opened,
            (final(self).stage, r) == counts_next(old(self).header, first_block, first_count),
    {
        if open::rebuild_required(&self.header, first_block, first_count) {
            self.stage = OpenStage::Rebuild;
            OpenTurn::Need(OpenNeed::Rebuild)
        } else {
            self.tables()
        }
    }

    /// Takes opening a step further. The backing file comes before everything that depends on the
    /// size of the file; counts that cannot be trusted are rebuilt before the tables are read.
    pub fn step(&mut self, given: OpenGiven) -> (r: OpenTurn)
        requires
            old(self).wf(),
        ensures
            final(self).wf(),
            final(self).header == old(self).header,
            final(self).read_only == old(self).read_only,
            (final(self).stage, r) == old(self).next(given),
            match (old(self).stage, given) {
                (OpenStage::L1, OpenGiven::Table(t)) => r is Need ==> final(self).l1_table@
                    == masked(t@),
                (OpenStage::RefcountTable, OpenGiven::Table(t)) => r is Opened ==> old(
                    self,
                ).is_opened(final(self), t@),
                _ => final(self).l1_table == old(self).l1_table && final(self).opened == old(
                    self,
                ).opened,
            },
    {
        match self.stage {
            OpenStage::Header => {
                match open::check_format(&self.header) {
                    Ok(()) => {},
                    Err(e) => {
                        return OpenTurn::Refused(e);
                    },
                }
                if self.header.backing_file_path.is_some() {
                    self.stage = OpenStage::Backing;
                    OpenTurn::Need(OpenNeed::Backing)
                } else {
                    self.stage = OpenStage::Size;
                    OpenTurn::Need(OpenNeed::FileSize)
                }
            },
            OpenStage::Backing => {
                self.stage = OpenStage::Size;
                OpenTurn::Need(OpenNeed::FileSize)
            },
            OpenStage::Size => match given {
                OpenGiven::Size(n) => match open::check_layout(&self.header, self.read_only, n) {
                    Ok(()) => {
                        self.stage = OpenStage::FirstBlock;
                        OpenTurn::Need(OpenNeed::Entry(self.header.refcount_table_offset))
                    },
                    Err(e) => OpenTurn::Refused(e),
                },
                _ => OpenTurn::Unexpected,
            },
            OpenStage::FirstBlock => match given {
                OpenGiven::Entry(at) => if at == 0 {
                    self.first_count(at, 0)
                } else {
                    self.stage = OpenStage::FirstCount(at);
                    OpenTurn::Need(OpenNeed::Count(at))
                },
                _ => OpenTurn::Unexpected,
            },
            OpenStage::FirstCount(at) => match given {
                OpenGiven::Count(n) => self.first_count(at, n),
                _ => OpenTurn::Unexpected,
            },
            OpenStage::Rebuild => self.tables(),
            OpenStage::L1 => match given {
                OpenGiven::Table(t) => self.l1_read(&t),
                _ => OpenTurn::Unexpected,
            },
            OpenStage::RefcountTable => match given {
                OpenGiven::Table(t) => self.refcount_table_read(t),
                _ => OpenTurn::Unexpected,
            },
            OpenStage::Open => OpenTurn::Opened,
        }
    }

    /// The L1 table was read.
    fn l1_read(&mut self, table: &Vec<u64>) -> (r: OpenTurn)
        requires
            old(self).wf(),
            old(self).stage is L1,
        ensures
            final(self).wf(),
            final(self).header == old(self).header,
            final(self).read_only == old(self).read_only,
            (final(self).stage, r) == old(self).next(OpenGiven::Table(*table)),
            r is Need ==> final(self).l1_table@ == masked(table@),
    {
        match open::l1_entries(&self.header) {
            Ok(n) => {
                if table.len() as u64 != n {
                    return OpenTurn::Unexpected;
                }
            },
            Err(_) => {
                return OpenTurn::Unexpected;
            },
        }
        match open::check_tables(&self.header) {
            Ok(n) => {
                self.l1_table = table_offsets(table);
                self.stage = OpenStage::RefcountTable;
                OpenTurn::Need(OpenNeed::Table(self.header.refcount_table_offset, n))
            },
            Err(e) => OpenTurn::Refused(e),
        }
    }

    /// The refcount table was read.
    fn refcount_table_read(&mut self, table: Vec<u64>) -> (r: OpenTurn)
        requires
            old(self).wf(),
            old(self).stage is RefcountTable,
        ensures
            final(self).wf(),
            final(self).header == old(self).header,
            final(self).read_only == old(self).read_only,
            (final(self).stage, r) == old(self).next(OpenGiven::Table(table)),
            r is Opened ==> old(self).is_opened(final(self), table@),
    {
        let h = &self.header;
        match open::check_tables(h) {
            Ok(n) => {
                if table.len() as u64 != n {
                    return OpenTurn::Unexpected;
                }
            },
            Err(_) => {
                return OpenTurn::Unexpected;
            },
        }
        match open::check_address_space(h) {
            Ok(()) => {},
            Err(e) => {
                return OpenTurn::Refused(e);
            },
        }
        let shape = Geometry { cluster_bits: h.cluster_bits, virtual_size: h.size };
        let has_backing = h.backing_file_path.is_some();
        proof {
            counts_have_offsets(*h);
            shape.bounds();
        }
        let cluster_size: u64 = shape.cluster_size();
        let counted = RefCounts::new(table, (cluster_size / 2) as usize, cluster_size);
        match counted {
            Some(c) => {
                let mut l1_table: Vec<u64> = Vec::new();
                std::mem::swap(&mut l1_table, &mut self.l1_table);
                self.opened = Some((Mapping::new(shape, l1_table, has_backing), c));
                self.stage = OpenStage::Open;
                OpenTurn::Opened
            },
            None => OpenTurn::Unexpected,
        }
    }
}

/// The entries of an L1 table are offsets without their lowest nine and highest eight bits.
pub proof fn flags_are_taken_off(table: Seq<u64>, i: int)
    requires
        0 <= i < table.len(),
    ensures
        masked(table).len() == table.len(),
        masked(table)[i] == table[i] % 0x100_0000_0000_0000 - table[i] % 512,
{
    let raw = table[i];
    assert(raw & 0x00ff_ffff_ffff_fe00u64 == raw % 0x100_0000_0000_0000u64 - raw % 512)
        by (bit_vector);
}

/// An image is opened in order: its format is looked at before anything of it is read, its backing file
/// comes before its size, and its layout before its counts.
pub proof fn the_header_comes_first(o: Opening, given: OpenGiven, size: u64)
    ensures
        o.stage is Header ==> {
            let (stage, turn) = o.next(given);
            &&& turn is Refused <==> open::format_error(o.header) is Some
            &&& turn is Refused || turn is Need
            &&& turn == OpenTurn::Need(OpenNeed::Backing) ==> stage is Backing
                && o.header.backing_file_path is Some
            &&& turn == OpenTurn::Need(OpenNeed::FileSize) ==> stage is Size
                && o.header.backing_file_path is None
        },
        o.stage is Backing ==> o.next(given) == (
            OpenStage::Size,
            OpenTurn::Need(OpenNeed::FileSize),
        ),
        o.stage is Size ==> match open::layout_error(o.header, o.read_only, size) {
            Some(e) => o.next(OpenGiven::Size(size)).1 == OpenTurn::Refused(e),
            None => o.next(OpenGiven::Size(size)) == (
                OpenStage::FirstBlock,
                OpenTurn::Need(OpenNeed::Entry(o.header.refcount_table_offset)),
            ),
        },
{
}

/// The first count is read where the first entry of the refcount table says, and not at all where it says
/// nothing; counts that cannot be trusted are rebuilt, and only then, or where they can be, the L1 table
/// is read, whole.
pub proof fn counts_come_before_tables(o: Opening, at: u64, n: u16)
    ensures
        ({
            let (stage, turn) = o.next(OpenGiven::Entry(at));
            &&& o.stage is FirstBlock && at != 0 ==> stage == OpenStage::FirstCount(at) && turn
                == OpenTurn::Need(OpenNeed::Count(at))
            &&& o.stage is FirstBlock && at == 0 ==> stage is Rebuild && turn == OpenTurn::Need(
                OpenNeed::Rebuild,
            )
        }),
        o.stage == OpenStage::FirstCount(at) ==> {
            let (stage, turn) = o.next(OpenGiven::Count(n));
            &&& turn == OpenTurn::Need(OpenNeed::Rebuild) <==> open::rebuild_needed(o.header, at, n)
            &&& !open::rebuild_needed(o.header, at, n) ==> (stage, turn) == tables_next(o.header)
        },
        open::l2_tables(o.header) <= 35_000_000 ==> tables_next(o.header) == (
            OpenStage::L1,
            OpenTurn::Need(
                OpenNeed::Table(o.header.l1_table_offset, open::l2_tables(o.header) as u64),
            ),
        ),
        open::l2_tables(o.header) > 35_000_000 ==> tables_next(o.header).1 == OpenTurn::Refused(
            Error::TooManyL1Entries(open::l2_tables(o.header) as u64),
        ),
{
}

/// What the guest sees of an image that was just opened comes from the file alone: the cluster of an
/// address that the L1 table leads nowhere for is that of the backing file, if the header names one, and
/// else zero; for any other the entry is the one in the L2 table of the file, eight bytes per cluster.
/// No count is known that is not in the file, and nothing is waiting to be written.
pub proof fn an_open_image_is_that_of_the_file(
    o: Opening,
    after: Opening,
    refcount_table: Seq<u64>,
    v: Volume,
    a: int,
    x: u64,
)
    requires
        o.is_opened(&after, refcount_table),
        0 <= a < o.header.size,
    ensures
        after.opened matches Some((m, c)) && {
            let cs = m.geometry.cs();
            let l1 = a / cs / (cs / 8);
            let l2 = a / cs % (cs / 8);
            &&& m.geometry.virtual_size == o.header.size
            &&& m.geometry.cluster_bits == o.header.cluster_bits
            &&& l1 < o.l1_table@.len() && o.l1_table@[l1] == 0 ==> contents::guest(m, v, a) == (
            if o.header.backing_file_path is Some {
                (v.below)(a)
            } else {
                0
            })
            &&& l1 < o.l1_table@.len() && o.l1_table@[l1] != 0 ==> contents::entry_at(m, v, a)
                == qcow::map::decoded(contents::raw_entry(v.file, o.l1_table@[l1] + 8 * l2))
            &&& !m.l1_dirty && !c.table_dirty
            &&& c.counted(x) is NeedBlock || c.counted(x) is Invalid || c.counted(x)
                == counts::Counted::Count(0)
            &&& c.counted(x) matches counts::Counted::NeedBlock(b, at) ==> at == refcount_table[b as int]
                && at != 0 && b == x as int / cs / (cs / 2)
        },
{
    let (m, c) = after.opened->0;
    m.geometry.bounds();
    lemma_div_pos_is_pos(x as int, m.geometry.cs());
    lemma_div_pos_is_pos(x as int / m.geometry.cs(), m.geometry.cs() / 2);
    assert(c.table.len() == c.table@.len());
}

} // verus!
