//! Counting the references to every cluster anew.
//!
//! The tables are handed in one at a time. What is to be written follows from the counts.

use vstd::arithmetic::div_mod::*;
use vstd::arithmetic::power2::*;
use vstd::prelude::*;

use crate::qcow;
use crate::qcow::geometry;
use crate::qcow::geometry::Geometry;
use crate::qcow::header::QcowHeader;
use crate::qcow::open;
use crate::qcow::refblocks;
use crate::qcow::Error;

verus! {

/// The counts after one more reference to the cluster at `address`.
pub open spec fn count_ref(counts: Seq<u16>, cs: int, address: u64) -> Result<Seq<u16>, Error> {
    let i = address as int / cs;
    if i >= counts.len() {
        Err(Error::InvalidClusterIndex)
    } else if counts[i] == u16::MAX {
        Err(Error::RefcountOverflow)
    } else {
        Ok(counts.update(i, (counts[i] + 1) as u16))
    }
}

/// The counts after a reference to each of the clusters at the first `n` of `addresses`.
pub open spec fn count_refs(counts: Seq<u16>, cs: int, addresses: Seq<u64>, n: int) -> Result<
    Seq<u16>,
    Error,
>
    decreases n,
{
    if n <= 0 {
        Ok(counts)
    } else {
        match count_refs(counts, cs, addresses, n - 1) {
            Err(e) => Err(e),
            Ok(c) => count_ref(c, cs, addresses[n - 1]),
        }
    }
}

/// The counts after a reference to each of the clusters at `addresses`.
pub open spec fn counted(counts: Seq<u16>, cs: int, addresses: Seq<u64>) -> Result<
    Seq<u16>,
    Error,
> {
    count_refs(counts, cs, addresses, addresses.len() as int)
}

/// How many of `addresses` lie in cluster `i`.
pub open spec fn references(addresses: Seq<u64>, cs: int, i: int) -> int
    decreases addresses.len(),
{
    if addresses.len() == 0 {
        0
    } else {
        references(addresses.drop_last(), cs, i) + (if addresses.last() as int / cs == i {
            1int
        } else {
            0
        })
    }
}

/// Counting does not change how many counts there are.
pub(crate) proof fn count_refs_len(counts: Seq<u16>, cs: int, addresses: Seq<u64>, n: int)
    requires
        0 < cs,
        0 <= n <= addresses.len(),
    ensures
        count_refs(counts, cs, addresses, n) matches Ok(c) ==> c.len() == counts.len(),
    decreases n,
{
    if n > 0 {
        count_refs_len(counts, cs, addresses, n - 1);
    }
}

/// Counting looks at the addresses one after the other.
proof fn count_refs_prefix(counts: Seq<u16>, cs: int, a: Seq<u64>, b: Seq<u64>, n: int)
    requires
        0 <= n <= a.len(),
        n <= b.len(),
        a.take(n) == b.take(n),
    ensures
        count_refs(counts, cs, a, n) == count_refs(counts, cs, b, n),
    decreases n,
{
    if n > 0 {
        assert(a.take(n - 1) =~= a.take(n).take(n - 1));
        assert(b.take(n - 1) =~= b.take(n).take(n - 1));
        count_refs_prefix(counts, cs, a, b, n - 1);
        assert(a[n - 1] == a.take(n)[n - 1]);
        assert(b[n - 1] == b.take(n)[n - 1]);
    }
}

/// Counting two lists is counting the one and then the other.
pub(crate) proof fn counted_concat(counts: Seq<u16>, cs: int, a: Seq<u64>, b: Seq<u64>, n: int)
    requires
        0 <= n <= b.len(),
    ensures
        count_refs(counts, cs, a + b, a.len() + n) == (match counted(counts, cs, a) {
            Err(e) => Err(e),
            Ok(c) => count_refs(c, cs, b, n),
        }),
    decreases n,
{
    if n == 0 {
        assert((a + b).take(a.len() as int) =~= a.take(a.len() as int));
        count_refs_prefix(counts, cs, a + b, a, a.len() as int);
    } else {
        counted_concat(counts, cs, a, b, n - 1);
        assert((a + b)[a.len() + n - 1] == b[n - 1]);
    }
}

/// Where counting succeeds, every count has grown by the number of references to its cluster: no
/// reference is lost and none is counted twice.
pub proof fn counts_are_references(counts: Seq<u16>, cs: int, addresses: Seq<u64>, i: int)
    requires
        0 < cs,
        0 <= i < counts.len(),
    ensures
        counted(counts, cs, addresses) matches Ok(c) ==> c.len() == counts.len() && c[i]
            == counts[i] + references(addresses, cs, i),
    decreases addresses.len(),
{
    let n = addresses.len() as int;
    if n > 0 {
        let before = addresses.drop_last();
        counts_are_references(counts, cs, before, i);
        assert(addresses.take(n - 1) =~= before.take(n - 1));
        count_refs_prefix(counts, cs, addresses, before, n - 1);
        assert(addresses[n - 1] == addresses.last());
        lemma_div_pos_is_pos(addresses.last() as int, cs);
    }
}

/// References in two lists are those in the one and those in the other.
pub proof fn references_add_up(a: Seq<u64>, b: Seq<u64>, cs: int, i: int)
    ensures
        references(a + b, cs, i) == references(a, cs, i) + references(b, cs, i),
    decreases b.len(),
{
    if b.len() == 0 {
        assert(a + b =~= a);
    } else {
        references_add_up(a, b.drop_last(), cs, i);
        assert((a + b).drop_last() =~= a + b.drop_last());
    }
}

/// References are counted from zero.
pub(crate) proof fn references_begin_at_zero(addresses: Seq<u64>, cs: int, i: int)
    ensures
        references(addresses, cs, i) >= 0,
    decreases addresses.len(),
{
    if addresses.len() > 0 {
        references_begin_at_zero(addresses.drop_last(), cs, i);
    }
}

/// A cluster that one of the addresses lies in has a reference; where they were counted, it is one
/// of the clusters that are.
pub(crate) proof fn what_is_referred_to_is_counted(
    counts: Seq<u16>,
    cs: int,
    addresses: Seq<u64>,
    at: u64,
)
    requires
        0 < cs,
        addresses.contains(at),
    ensures
        references(addresses, cs, at as int / cs) > 0,
        counted(counts, cs, addresses) is Ok ==> 0 <= at as int / cs < counts.len(),
    decreases addresses.len(),
{
    let i = at as int / cs;
    let n = addresses.len() as int;
    let before = addresses.drop_last();
    lemma_div_pos_is_pos(at as int, cs);
    assert(addresses.take(n - 1) =~= before.take(n - 1));
    count_refs_prefix(counts, cs, addresses, before, n - 1);
    count_refs_len(counts, cs, before, n - 1);
    references_begin_at_zero(before, cs, i);
    if addresses.last() != at {
        let j = choose|j: int| 0 <= j < addresses.len() && addresses[j] == at;
        assert(before[j] == at);
        what_is_referred_to_is_counted(counts, cs, before, at);
    }
}

/// Counting fails exactly where an address lies outside or a count would overflow.
pub proof fn counting_succeeds_in_range(counts: Seq<u16>, cs: int, addresses: Seq<u64>)
    requires
        0 < cs,
        forall|k: int|
            0 <= k < addresses.len() ==> #[trigger] addresses[k] as int / cs < counts.len(),
        forall|i: int|
            0 <= i < counts.len() ==> #[trigger] counts[i] + references(addresses, cs, i)
                <= u16::MAX,
    ensures
        counted(counts, cs, addresses) is Ok,
    decreases addresses.len(),
{
    let n = addresses.len() as int;
    if n > 0 {
        let before = addresses.drop_last();
        assert forall|i: int| 0 <= i < counts.len() implies #[trigger] counts[i] + references(
            before,
            cs,
            i,
        ) <= u16::MAX by {
            assert(counts[i] + references(addresses, cs, i) <= u16::MAX);
        }
        assert forall|k: int| 0 <= k < before.len() implies #[trigger] before[k] as int / cs
            < counts.len() by {
            assert(before[k] == addresses[k]);
        }
        counting_succeeds_in_range(counts, cs, before);
        assert(addresses.take(n - 1) =~= before.take(n - 1));
        count_refs_prefix(counts, cs, addresses, before, n - 1);
        let i = addresses[n - 1] as int / cs;
        lemma_div_pos_is_pos(addresses[n - 1] as int, cs);
        counts_are_references(counts, cs, before, i);
        assert(counts[i] + references(addresses, cs, i) <= u16::MAX);
    }
}

/// Adds a reference to the cluster at `address`.
fn add_ref(counts: &mut Vec<u16>, cluster_size: u64, address: u64) -> (r: Result<(), Error>)
    requires
        cluster_size > 0,
    ensures
        match count_ref(old(counts)@, cluster_size as int, address) {
            Ok(c) => r is Ok && final(counts)@ == c,
            Err(e) => r == Err::<(), Error>(e) && final(counts)@ == old(counts)@,
        },
{
    let i: u64 = address / cluster_size;
    if i >= counts.len() as u64 {
        return Err(Error::InvalidClusterIndex);
    }
    let i: usize = i as usize;
    if counts[i] == u16::MAX {
        return Err(Error::RefcountOverflow);
    }
    counts[i] = counts[i] + 1;
    Ok(())
}

/// Adds a reference to each of the clusters at `addresses`.
fn add_refs(counts: &mut Vec<u16>, cluster_size: u64, addresses: &Vec<u64>) -> (r: Result<
    (),
    Error,
>)
    requires
        cluster_size > 0,
    ensures
        match counted(old(counts)@, cluster_size as int, addresses@) {
            Ok(c) => r is Ok && final(counts)@ == c,
            Err(e) => r == Err::<(), Error>(e),
        },
{
    let mut i: usize = 0;
    while i < addresses.len()
        invariant
            i <= addresses@.len(),
            cluster_size > 0,
            count_refs(old(counts)@, cluster_size as int, addresses@, i as int) == Ok::<
                Seq<u16>,
                Error,
            >(counts@),
        decreases addresses@.len() - i,
    {
        match add_ref(counts, cluster_size, addresses[i]) {
            Ok(()) => {},
            Err(e) => {
                proof {
                    first_error_stays(
                        old(counts)@,
                        cluster_size as int,
                        addresses@,
                        i + 1,
                        addresses@.len() as int,
                    );
                }
                return Err(e);
            },
        }
        i = i + 1;
    }
    Ok(())
}

/// An error ends the counting.
proof fn first_error_stays(counts: Seq<u16>, cs: int, addresses: Seq<u64>, n: int, m: int)
    requires
        0 <= n <= m <= addresses.len(),
        count_refs(counts, cs, addresses, n) is Err,
    ensures
        count_refs(counts, cs, addresses, m) == count_refs(counts, cs, addresses, n),
    decreases m,
{
    if n < m {
        first_error_stays(counts, cs, addresses, n, m - 1);
    }
}

/// `n` clusters from `start` on.
pub open spec fn run_of(start: u64, cs: int, n: int) -> Seq<u64> {
    Seq::new(n as nat, |i: int| (start + i * cs) as u64)
}

/// Adds a reference to each of `n` clusters from `start` on.
fn add_run(counts: &mut Vec<u16>, cluster_size: u64, start: u64, n: u64) -> (r: Result<(), Error>)
    requires
        cluster_size > 0,
        (old(counts)@.len() + 1) * cluster_size <= u64::MAX,
    ensures
        match counted(
            old(counts)@,
            cluster_size as int,
            run_of(start, cluster_size as int, n as int),
        ) {
            Ok(c) => r is Ok && final(counts)@ == c,
            Err(e) => r == Err::<(), Error>(e),
        },
{
    let ghost all = run_of(start, cluster_size as int, n as int);
    let mut i: u64 = 0;
    while i < n
        invariant
            i <= n,
            cluster_size > 0,
            (old(counts)@.len() + 1) * cluster_size <= u64::MAX,
            counts@.len() == old(counts)@.len(),
            i > 0 ==> start + (i - 1) * cluster_size < old(counts)@.len() * cluster_size,
            all == run_of(start, cluster_size as int, n as int),
            count_refs(old(counts)@, cluster_size as int, all, i as int) == Ok::<Seq<u16>, Error>(
                counts@,
            ),
        decreases n - i,
    {
        proof {
            let len = old(counts)@.len() as int;
            assert((len + 1) * cluster_size == len * cluster_size + cluster_size)
                by (nonlinear_arith);
            assert(i * cluster_size == (i - 1) * cluster_size + cluster_size) by (nonlinear_arith);
            assert(0 <= i * cluster_size) by (nonlinear_arith)
                requires
                    0 <= i,
                    cluster_size > 0,
            ;
            assert(0 * cluster_size == 0) by (nonlinear_arith);
            assert(all[i as int] == (start + i * cluster_size) as u64);
            let a = start + i * cluster_size;
            let cs = cluster_size as int;
            lemma_fundamental_div_mod(a, cs);
            assert((a / cs) < len ==> a < len * cs) by (nonlinear_arith)
                requires
                    a == cs * (a / cs) + a % cs,
                    a % cs < cs,
                    cs > 0,
            ;
        }
        match add_ref(counts, cluster_size, start + i * cluster_size) {
            Ok(()) => {},
            Err(e) => {
                proof {
                    first_error_stays(
                        old(counts)@,
                        cluster_size as int,
                        all,
                        i + 1,
                        all.len() as int,
                    );
                }
                return Err(e);
            },
        }
        i = i + 1;
    }
    Ok(())
}

/// The clusters that an entry of an L2 table, as the file holds it, refers to.
pub open spec fn entry_refs(entry: u64, cluster_bits: u32) -> Seq<u64> {
    if entry == 0 {
        Seq::empty()
    } else if entry & qcow::COMPRESSED_FLAG != 0 {
        geometry::host_clusters(entry, cluster_bits)
    } else if entry & qcow::TABLE_OFFSET_MASK != 0 {
        seq![entry & qcow::TABLE_OFFSET_MASK]
    } else {
        Seq::empty()
    }
}

/// The clusters that the first `n` entries of an L2 table refer to.
pub open spec fn entries_refs(table: Seq<u64>, cluster_bits: u32, n: int) -> Seq<u64>
    decreases n,
{
    if n <= 0 {
        Seq::empty()
    } else {
        entries_refs(table, cluster_bits, n - 1) + entry_refs(table[n - 1], cluster_bits)
    }
}

/// What an entry of a table refers to, the table does.
pub(crate) proof fn entries_refer(table: Seq<u64>, cluster_bits: u32, n: int, j: int, at: u64)
    requires
        0 <= j < n <= table.len(),
        entry_refs(table[j], cluster_bits).contains(at),
    ensures
        entries_refs(table, cluster_bits, n).contains(at),
    decreases n,
{
    let before = entries_refs(table, cluster_bits, n - 1);
    let last = entry_refs(table[n - 1], cluster_bits);
    if j < n - 1 {
        entries_refer(table, cluster_bits, n - 1, j, at);
        let k = choose|k: int| 0 <= k < before.len() && before[k] == at;
        assert((before + last)[k] == at);
    } else {
        let k = choose|k: int| 0 <= k < last.len() && last[k] == at;
        assert((before + last)[before.len() + k] == at);
    }
}

/// The clusters that an L2 table at `address` stands for: its own, and those of its entries.
pub open spec fn table_refs(address: u64, table: Seq<u64>, cluster_bits: u32) -> Seq<u64> {
    seq![address] + entries_refs(table, cluster_bits, table.len() as int)
}

/// The sizes that a rebuild works with.
#[derive(Clone, Copy, Debug, PartialEq, Eq, Structural)]
pub struct Plan {
    /// How many clusters there can be.
    pub max_clusters: u64,
    /// How many clusters hold counts.
    pub refblock_clusters: u64,
    /// Counts in one cluster.
    pub block_entries: u64,
    /// Entries of the refcount table that are written.
    pub table_entries: u64,
}

/// The clusters of the image and its header and L1 and L2 tables.
pub open spec fn table_clusters(h: QcowHeader) -> int {
    open::data_clusters(h) + open::l2_tables(h) + open::l1_clusters(h) + 1
}

/// The clusters that hold their counts.
pub open spec fn refblocks_for_tables(h: QcowHeader) -> int {
    geometry::ceil_div(table_clusters(h), open::geometry_of(h).cs() / 2)
}

/// The clusters of the table that points at those.
pub open spec fn reftables(h: QcowHeader) -> int {
    geometry::ceil_div(refblocks_for_tables(h), open::geometry_of(h).entries())
}

/// The clusters that hold the counts of the clusters of counts.
pub open spec fn refblocks_for_refs(h: QcowHeader) -> int {
    geometry::ceil_div(refblocks_for_tables(h) + reftables(h), open::geometry_of(h).cs() / 2)
}

/// All the clusters that there can be.
pub open spec fn max_clusters(h: QcowHeader) -> int {
    table_clusters(h) + refblocks_for_tables(h) + reftables(h) + refblocks_for_refs(h)
        + geometry::ceil_div(refblocks_for_refs(h), open::geometry_of(h).cs() / 2)
}

/// The clusters that hold the counts of all of them.
pub open spec fn refblocks(h: QcowHeader) -> int {
    geometry::ceil_div(max_clusters(h), open::geometry_of(h).cs() / 2)
}

/// The entries that the clusters of the refcount table have room for.
pub open spec fn table_room(h: QcowHeader) -> int {
    h.refcount_table_clusters * open::geometry_of(h).entries()
}

/// The entries of the refcount table that are written: all that can point at a block, and all that
/// are read when the image is opened, as far as the table has room for them.
pub open spec fn table_entries(h: QcowHeader) -> int {
    let most = if refblocks(h) < open::refcount_clusters(h) {
        open::refcount_clusters(h)
    } else {
        refblocks(h)
    };
    if most < table_room(h) {
        most
    } else {
        table_room(h)
    }
}

/// The blocks hold a count for every cluster, and each of them begins with one.
pub proof fn blocks_hold_every_count(h: QcowHeader, i: int)
    requires
        open::geometry_of(h).wf(),
        h.size <= qcow::MAX_QCOW_FILE_SIZE,
    ensures
        0 <= i < max_clusters(h) ==> 0 <= i / (open::geometry_of(h).cs() / 2) < refblocks(h),
        0 <= i < refblocks(h) ==> i * (open::geometry_of(h).cs() / 2) < max_clusters(h),
{
    let g = open::geometry_of(h);
    g.bounds();
    sizes_are_small(h);
    let per = g.cs() / 2;
    geometry::ceil_div_is_least(max_clusters(h), per, i);
    if 0 <= i < max_clusters(h) {
        lemma_fundamental_div_mod(i, per);
        lemma_div_pos_is_pos(i, per);
        let q = i / per;
        geometry::ceil_div_is_least(max_clusters(h), per, q);
        assert(q * per == per * q) by (nonlinear_arith);
    }
}

/// The refcount table that is written fits into its clusters.
pub(crate) proof fn table_is_small(h: QcowHeader)
    requires
        open::geometry_of(h).wf(),
        h.size <= qcow::MAX_QCOW_FILE_SIZE,
        max_clusters(h) <= qcow::MAX_RAM_POINTER_TABLE_SIZE,
    ensures
        0 <= table_entries(h) <= 0x1000_0000,
        table_entries(h) * 8 <= h.refcount_table_clusters * open::geometry_of(h).cs(),
{
    let g = open::geometry_of(h);
    g.bounds();
    sizes_are_small(h);
    open::refcounts_are_few(h);
    assert(table_room(h) * 8 <= h.refcount_table_clusters * g.cs()) by (nonlinear_arith)
        requires
            table_room(h) == h.refcount_table_clusters * g.entries(),
            g.entries() * 8 == g.cs(),
    ;
    assert(table_room(h) >= 0) by (nonlinear_arith)
        requires
            table_room(h) == h.refcount_table_clusters * g.entries(),
            g.entries() >= 0,
    ;
}

/// What the sizes rule out.
pub open spec fn plan_error(h: QcowHeader, file_size: u64) -> Option<Error> {
    let cs = open::geometry_of(h).cs();
    if max_clusters(h) > qcow::MAX_RAM_POINTER_TABLE_SIZE {
        Some(Error::InvalidRefcountTableSize(max_clusters(h) as u64))
    } else if max_clusters(h) * cs < file_size - cs {
        Some(Error::InvalidRefcountTableSize((max_clusters(h) * cs) as u64))
    } else {
        None
    }
}

/// The sizes are in range once the format was checked.
pub(crate) proof fn sizes_are_small(h: QcowHeader)
    requires
        open::geometry_of(h).wf(),
        h.size <= qcow::MAX_QCOW_FILE_SIZE,
    ensures
        0 <= open::data_clusters(h) <= 0x8_0000_0000,
        0 <= open::l2_tables(h) <= open::data_clusters(h),
        0 <= open::l1_clusters(h) <= open::l2_tables(h),
        1 <= table_clusters(h) <= 0x20_0000_0000,
        0 <= refblocks_for_tables(h) <= table_clusters(h),
        0 <= reftables(h) <= refblocks_for_tables(h),
        0 <= refblocks_for_refs(h) <= refblocks_for_tables(h) + reftables(h),
        0 <= geometry::ceil_div(refblocks_for_refs(h), open::geometry_of(h).cs() / 2)
            <= refblocks_for_refs(h),
        0 <= refblocks(h) <= max_clusters(h),
{
    let g = open::geometry_of(h);
    g.bounds();
    geometry::ceil_div_is_least(h.size as int, g.cs(), 0x8_0000_0000);
    lemma_div_pos_is_pos(h.size as int, g.cs());
    assert(0x8_0000_0000 * g.cs() >= 0x8_0000_0000 * 512) by (nonlinear_arith)
        requires
            g.cs() >= 512,
    ;
    shrinks(open::data_clusters(h), g.entries());
    open::l1_clusters_are_few(open::l2_tables(h), g.cs());
    shrinks(table_clusters(h), g.cs() / 2);
    shrinks(refblocks_for_tables(h), g.entries());
    shrinks(refblocks_for_tables(h) + reftables(h), g.cs() / 2);
    shrinks(refblocks_for_refs(h), g.cs() / 2);
    shrinks(max_clusters(h), g.cs() / 2);
}

/// Rounding up does not go past the number itself.
pub(crate) proof fn shrinks(a: int, b: int)
    requires
        0 <= a,
        0 < b,
    ensures
        0 <= geometry::ceil_div(a, b) <= a,
{
    geometry::ceil_div_is_least(a, b, a);
    lemma_div_pos_is_pos(a, b);
    assert(a * b >= a) by (nonlinear_arith)
        requires
            a >= 0,
            b >= 1,
    ;
}

/// Works out the sizes for a file of `file_size` bytes.
pub fn plan(h: &QcowHeader, file_size: u64) -> (r: Result<Plan, Error>)
    requires
        open::geometry_of(*h).wf(),
        h.size <= qcow::MAX_QCOW_FILE_SIZE,
        file_size >= open::geometry_of(*h).cs(),
    ensures
        match plan_error(*h, file_size) {
            Some(e) => r == Err::<Plan, Error>(e),
            None => {
                &&& r is Ok
                &&& r->Ok_0.max_clusters == max_clusters(*h)
                &&& r->Ok_0.refblock_clusters == refblocks(*h)
                &&& r->Ok_0.block_entries == open::geometry_of(*h).cs() / 2
                &&& r->Ok_0.table_entries == table_entries(*h)
            },
        },
{
    let g = Geometry { cluster_bits: h.cluster_bits, virtual_size: h.size };
    proof {
        sizes_are_small(*h);
        g.bounds();
    }
    let cs: u64 = g.cluster_size();
    let pointers: u64 = g.l2_entries();
    let block_entries: u64 = cs / 2;
    let data: u64 = geometry::div_ceil(h.size, cs);
    let l2: u64 = geometry::div_ceil(data, pointers);
    let l1: u64 = geometry::div_ceil(l2 * 8, cs);
    let tables: u64 = data + l2 + l1 + qcow::HEADER_CLUSTERS;
    // The blocks of counts and their table are counted as well.
    let for_tables: u64 = geometry::div_ceil(tables, block_entries);
    let reftable_clusters: u64 = geometry::div_ceil(for_tables, pointers);
    let for_refs: u64 = geometry::div_ceil(for_tables + reftable_clusters, block_entries);
    let tables_for_refs: u64 = geometry::div_ceil(for_refs, block_entries);
    let max: u64 = tables + for_tables + reftable_clusters + for_refs + tables_for_refs;
    if max > qcow::MAX_RAM_POINTER_TABLE_SIZE {
        return Err(Error::InvalidRefcountTableSize(max));
    }
    proof {
        assert(0 <= max * cs <= 35_000_000 * 0x20_0000) by (nonlinear_arith)
            requires
                0 <= max <= 35_000_000,
                0 <= cs <= 0x20_0000,
        ;
    }
    if max * cs < file_size - cs {
        return Err(Error::InvalidRefcountTableSize(max * cs));
    }
    let refblock_clusters: u64 = geometry::div_ceil(max, block_entries);
    proof {
        assert(h.refcount_table_clusters * pointers <= 0xffff_ffff * 0x4_0000) by (nonlinear_arith)
            requires
                h.refcount_table_clusters <= 0xffff_ffff,
                pointers <= 0x4_0000,
        ;
    }
    let room: u64 = h.refcount_table_clusters as u64 * pointers;
    let read: u64 = open::most_refcount_clusters(h);
    let most: u64 = if refblock_clusters < read {
        read
    } else {
        refblock_clusters
    };
    let table_entries: u64 = if most < room {
        most
    } else {
        room
    };
    Ok(Plan { max_clusters: max, refblock_clusters, block_entries, table_entries })
}

/// The counts of a rebuild that is under way.
pub struct Rebuild {
    pub geometry: Geometry,
    pub counts: Vec<u16>,
}

/// The clusters of the L1 table.
pub open spec fn l1_run(h: QcowHeader) -> Seq<u64> {
    let cs = open::geometry_of(h).cs();
    run_of(h.l1_table_offset, cs, geometry::ceil_div(h.l1_size * 8, cs))
}

/// The clusters of the refcount table.
pub open spec fn reftable_run(h: QcowHeader) -> Seq<u64> {
    run_of(h.refcount_table_offset, open::geometry_of(h).cs(), h.refcount_table_clusters as int)
}

/// The outcome of a step that adds references.
pub open spec fn stepped(before: Rebuild, addresses: Seq<u64>) -> Result<Seq<u16>, Error> {
    counted(before.counts@, before.geometry.cs(), addresses)
}

impl Rebuild {
    /// The counts are few enough to be held in memory.
    pub open spec fn wf(&self) -> bool {
        self.geometry.wf() && self.counts@.len() <= qcow::MAX_RAM_POINTER_TABLE_SIZE
    }

    /// Sums of addresses stay in range.
    pub(crate) proof fn in_range(&self)
        requires
            self.wf(),
        ensures
            (self.counts@.len() + 1) * self.geometry.cs() <= u64::MAX,
            self.counts@.len() * self.geometry.cs() <= u64::MAX,
    {
        self.geometry.bounds();
        let n = self.counts@.len() as int;
        let cs = self.geometry.cs();
        assert((n + 1) * cs <= 35_000_001 * 0x20_0000 && n * cs <= (n + 1) * cs)
            by (nonlinear_arith)
            requires
                0 <= n <= 35_000_000,
                512 <= cs <= 0x20_0000,
        ;
    }

    /// Starts with a reference to the header and to each cluster of the L1 table.
    pub fn start(h: &QcowHeader, plan: Plan) -> (r: Result<Rebuild, Error>)
        requires
            open::geometry_of(*h).wf(),
            plan.max_clusters <= qcow::MAX_RAM_POINTER_TABLE_SIZE,
        ensures
            match counted(
                Seq::new(plan.max_clusters as nat, |i: int| 0u16),
                open::geometry_of(*h).cs(),
                seq![0u64] + l1_run(*h),
            ) {
                Err(e) => r is Err && r->Err_0 == e,
                Ok(c) => r is Ok && r->Ok_0.counts@ == c && r->Ok_0.geometry == open::geometry_of(
                    *h,
                ) && r->Ok_0.wf(),
            },
    {
        let g = Geometry { cluster_bits: h.cluster_bits, virtual_size: h.size };
        let cs: u64 = g.cluster_size();
        let n: usize = plan.max_clusters as usize;
        let mut counts: Vec<u16> = vec![0u16;n];
        let ghost zero = Seq::new(plan.max_clusters as nat, |i: int| 0u16);
        proof {
            assert(counts@ =~= zero);
            counted_concat(zero, cs as int, seq![0u64], l1_run(*h), l1_run(*h).len() as int);
            assert(count_refs(zero, cs as int, seq![0u64], 1) == count_ref(zero, cs as int, 0))
                by {
                reveal_with_fuel(count_refs, 2);
            }
            let counts_now = Rebuild { geometry: g, counts };
            counts_now.in_range();
            let all = seq![0u64] + l1_run(*h);
            count_refs_len(zero, cs as int, all, all.len() as int);
        }
        match add_ref(&mut counts, cs, 0) {
            Ok(()) => {},
            Err(e) => {
                return Err(e);
            },
        }
        let l1_clusters: u64 = geometry::div_ceil(h.l1_size as u64 * 8, cs);
        match add_run(&mut counts, cs, h.l1_table_offset, l1_clusters) {
            Ok(()) => {},
            Err(e) => {
                return Err(e);
            },
        }
        Ok(Rebuild { geometry: g, counts })
    }

    /// Adds the references that an L2 table at `address` stands for. `table` holds its entries as
    /// the file does: a compressed cluster's entry is no address, so it must not be masked.
    pub fn add_table(&mut self, address: u64, table: &Vec<u64>) -> (r: Result<(), Error>)
        requires
            old(self).wf(),
        ensures
            final(self).geometry == old(self).geometry,
            r is Ok ==> final(self).wf(),
            match stepped(
                *old(self),
                table_refs(address, table@, old(self).geometry.cluster_bits),
            ) {
                Ok(c) => r is Ok && final(self).counts@ == c,
                Err(e) => r == Err::<(), Error>(e),
            },
    {
        let bits: u32 = self.geometry.cluster_bits;
        let cs: u64 = self.geometry.cluster_size();
        let ghost c0 = self.counts@;
        let ghost all = table_refs(address, table@, bits);
        proof {
            count_refs_len(c0, cs as int, all, all.len() as int);
            counted_concat(
                c0,
                cs as int,
                seq![address],
                entries_refs(table@, bits, table@.len() as int),
                entries_refs(table@, bits, table@.len() as int).len() as int,
            );
            assert(counted(c0, cs as int, seq![address]) == count_ref(c0, cs as int, address)) by {
                reveal_with_fuel(count_refs, 2);
            }
        }
        match add_ref(&mut self.counts, cs, address) {
            Ok(()) => {},
            Err(e) => {
                return Err(e);
            },
        }
        let ghost c1 = self.counts@;
        let mut i: usize = 0;
        while i < table.len()
            invariant
                i <= table@.len(),
                self.geometry == old(self).geometry,
                self.geometry.wf(),
                bits == self.geometry.cluster_bits,
                cs == self.geometry.cs(),
                cs > 0,
                c0 == old(self).counts@,
                counted(c0, cs as int, all) == counted(
                    c1,
                    cs as int,
                    entries_refs(table@, bits, table@.len() as int),
                ),
                all == table_refs(address, table@, bits),
                counted(c1, cs as int, entries_refs(table@, bits, i as int)) == Ok::<
                    Seq<u16>,
                    Error,
                >(self.counts@),
            decreases table@.len() - i,
        {
            let entry: u64 = table[i];
            let mut addresses: Vec<u64> = Vec::new();
            if entry != 0 {
                if entry & qcow::COMPRESSED_FLAG != 0 {
                    addresses = geometry::compressed_host_clusters(entry, bits);
                } else if entry & qcow::TABLE_OFFSET_MASK != 0 {
                    addresses.push(entry & qcow::TABLE_OFFSET_MASK);
                }
            }
            assert(addresses@ =~= entry_refs(entry, bits));
            let ghost seen = entries_refs(table@, bits, i as int);
            proof {
                counted_concat(c1, cs as int, seen, addresses@, addresses@.len() as int);
                assert(entries_refs(table@, bits, i + 1) == seen + addresses@);
            }
            match add_refs(&mut self.counts, cs, &addresses) {
                Ok(()) => {},
                Err(e) => {
                    proof {
                        entries_error_stays(c1, cs as int, table@, bits, i + 1, table@.len() as int);
                    }
                    return Err(e);
                },
            }
            i = i + 1;
        }
        Ok(())
    }

    /// Adds a reference to each cluster of the refcount table.
    pub fn add_refcount_table(&mut self, h: &QcowHeader) -> (r: Result<(), Error>)
        requires
            old(self).geometry == open::geometry_of(*h),
            old(self).wf(),
        ensures
            final(self).geometry == old(self).geometry,
            r is Ok ==> final(self).wf(),
            match stepped(*old(self), reftable_run(*h)) {
                Ok(c) => r is Ok && final(self).counts@ == c,
                Err(e) => r == Err::<(), Error>(e),
            },
    {
        let cs: u64 = self.geometry.cluster_size();
        proof {
            self.in_range();
            count_refs_len(
                self.counts@,
                cs as int,
                reftable_run(*h),
                reftable_run(*h).len() as int,
            );
        }
        add_run(&mut self.counts, cs, h.refcount_table_offset, h.refcount_table_clusters as u64)
    }

    /// Finds clusters for the new blocks of counts, the first that nothing refers to, and counts
    /// them. A block whose counts are all zero is not needed. Gives the refcount table.
    ///
    /// This comes last, when the counts of all other clusters are right.
    pub fn alloc_refblocks(&mut self, plan: Plan) -> (r: Result<Vec<u64>, Error>)
        requires
            old(self).wf(),
            0 < plan.block_entries <= 0x10_0000,
            plan.refblock_clusters > 0 ==> (plan.refblock_clusters - 1) * plan.block_entries
                <= old(self).counts@.len(),
            plan.refblock_clusters <= usize::MAX,
            plan.table_entries <= usize::MAX,
            old(self).counts@.len() > 0,
            old(self).counts@[0] != 0,
        ensures
            final(self).geometry == old(self).geometry,
            match refblocks::settled(
                old(self).counts@,
                Seq::new(plan.table_entries as nat, |j: int| 0u64),
                old(self).geometry.cs(),
                plan.block_entries as int,
                plan.refblock_clusters as int,
                open::unreferenced(
                    old(self).counts@,
                    old(self).counts@.len() as int,
                    old(self).geometry.cs(),
                ),
            ) {
                Some((c, t)) => r is Ok && r->Ok_0@ == t && final(self).counts@ == c,
                None => r is Err && r->Err_0 == Error::NotEnoughSpaceForRefcounts,
            },
    {
        let cs: u64 = self.geometry.cluster_size();
        proof {
            self.in_range();
        }
        refblocks::assign(
            &mut self.counts,
            plan.table_entries as usize,
            cs,
            plan.block_entries as usize,
            plan.refblock_clusters as usize,
        )
    }

    /// The counts of block `i`, filled up with zeroes to a whole cluster.
    pub fn refblock(&self, i: usize, plan: Plan) -> (r: Vec<u16>)
        requires
            plan.block_entries <= 0x10_0000,
            i * plan.block_entries <= self.counts@.len(),
        ensures
            r@ == Seq::new(
                plan.block_entries as nat,
                |j: int|
                    if i * plan.block_entries + j < self.counts@.len() {
                        self.counts@[i * plan.block_entries + j]
                    } else {
                        0u16
                    },
            ),
    {
        let n: usize = plan.block_entries as usize;
        proof {
            assert(i * n >= 0) by (nonlinear_arith)
                requires
                    i >= 0,
                    n >= 0,
            ;
        }
        let len: usize = self.counts.len();
        let start: usize = i * n;
        let mut block: Vec<u16> = Vec::new();
        let mut j: usize = 0;
        while j < n
            invariant
                j <= n,
                n == plan.block_entries,
                start == i * n,
                len == self.counts@.len(),
                start <= len,
                block@.len() == j,
                forall|k: int|
                    0 <= k < j ==> block@[k] == (if start + k < len {
                        self.counts@[start + k]
                    } else {
                        0u16
                    }),
            decreases n - j,
        {
            if j < len - start {
                block.push(self.counts[start + j]);
            } else {
                block.push(0);
            }
            j = j + 1;
        }
        assert(block@ =~= Seq::new(
            plan.block_entries as nat,
            |k: int|
                if i * plan.block_entries + k < self.counts@.len() {
                    self.counts@[i * plan.block_entries + k]
                } else {
                    0u16
                },
        ));
        block
    }
}

/// An error at one entry is the error of the table.
proof fn entries_error_stays(counts: Seq<u16>, cs: int, table: Seq<u64>, bits: u32, n: int, m: int)
    requires
        0 <= n <= m <= table.len(),
        counted(counts, cs, entries_refs(table, bits, n)) is Err,
    ensures
        counted(counts, cs, entries_refs(table, bits, m)) == counted(
            counts,
            cs,
            entries_refs(table, bits, n),
        ),
    decreases m,
{
    if n < m {
        entries_error_stays(counts, cs, table, bits, n, m - 1);
        let seen = entries_refs(table, bits, m - 1);
        let more = entry_refs(table[m - 1], bits);
        counted_concat(counts, cs, seen, more, more.len() as int);
    }
}

/// One of the writes that put a rebuilt table into the file.
#[derive(Clone, Copy, Debug, PartialEq, Eq, Structural)]
pub enum Write {
    /// The header, with the lazy-refcounts bit set or not.
    Header(bool),
    /// The block of counts with that index.
    Block(usize),
    /// The refcount table.
    Table,
}

/// The blocks that the first `n` entries of a table point at, in order.
pub open spec fn block_writes(table: Seq<u64>, n: int) -> Seq<Write>
    decreases n,
{
    if n <= 0 {
        Seq::empty()
    } else if table[n - 1] == 0 {
        block_writes(table, n - 1)
    } else {
        block_writes(table, n - 1).push(Write::Block((n - 1) as usize))
    }
}

/// The writes in order: the header says that the counts lag behind until the last of them is in
/// the file.
pub open spec fn writes_in_order(table: Seq<u64>) -> Seq<Write> {
    seq![Write::Header(true)] + block_writes(table, table.len() as int) + seq![
        Write::Table,
        Write::Header(false),
    ]
}

/// The writes that put a table and its blocks into the file, in order.
pub fn write_refblocks(table: &Vec<u64>) -> (r: Vec<Write>)
    ensures
        r@ == writes_in_order(table@),
{
    let mut writes: Vec<Write> = Vec::new();
    writes.push(Write::Header(true));
    let mut i: usize = 0;
    while i < table.len()
        invariant
            i <= table@.len(),
            writes@ =~= seq![Write::Header(true)] + block_writes(table@, i as int),
        decreases table@.len() - i,
    {
        if table[i] != 0 {
            writes.push(Write::Block(i));
        }
        i = i + 1;
    }
    writes.push(Write::Table);
    writes.push(Write::Header(false));
    assert(writes@ =~= writes_in_order(table@));
    writes
}

/// A write is that of a block that one of the first `n` entries of a table points at.
pub open spec fn is_block_of(table: Seq<u64>, n: int, w: Write) -> bool {
    match w {
        Write::Block(j) => j < n && table[j as int] != 0,
        _ => false,
    }
}

/// Only blocks are among the writes of blocks, and only those that the table points at; none is
/// written twice, and none is left out.
pub proof fn every_block_is_written_once(table: Seq<u64>, n: int)
    requires
        0 <= n <= table.len() <= usize::MAX,
    ensures
        block_writes(table, n).no_duplicates(),
        forall|k: int|
            0 <= k < block_writes(table, n).len() ==> is_block_of(
                table,
                n,
                #[trigger] block_writes(table, n)[k],
            ),
        forall|j: int|
            0 <= j < n && #[trigger] table[j] != 0 ==> block_writes(table, n).contains(
                Write::Block(j as usize),
            ),
    decreases n,
{
    if n > 0 {
        every_block_is_written_once(table, n - 1);
        let before = block_writes(table, n - 1);
        let now = block_writes(table, n);
        if table[n - 1] != 0 {
            assert forall|k: int| 0 <= k < now.len() implies is_block_of(
                table,
                n,
                #[trigger] now[k],
            ) by {
                if k < before.len() {
                    assert(now[k] == before[k]);
                }
            }
            assert forall|x: int, y: int| 0 <= x < now.len() && 0 <= y < now.len() && x
                != y implies now[x] != now[y] by {
                if x < before.len() {
                    assert(now[x] == before[x]);
                }
                if y < before.len() {
                    assert(now[y] == before[y]);
                }
            }
            assert forall|j: int| 0 <= j < n && #[trigger] table[j] != 0 implies now.contains(
                Write::Block(j as usize),
            ) by {
                let w = Write::Block(j as usize);
                if j < n - 1 {
                    assert(before.contains(w));
                    let k = choose|k: int| 0 <= k < before.len() && before[k] == w;
                    assert(now[k] == w);
                } else {
                    assert(now[before.len() as int] == w);
                }
            }
        }
    }
}

/// A block that is written is one that the table points at.
pub(crate) proof fn written_blocks_are_in_the_table(table: Seq<u64>, k: int)
    requires
        table.len() <= usize::MAX,
        0 <= k < writes_in_order(table).len(),
    ensures
        writes_in_order(table)[k] matches Write::Block(j) ==> j < table.len() && table[j as int]
            != 0,
{
    let blocks = block_writes(table, table.len() as int);
    every_block_is_written_once(table, table.len() as int);
    if 0 < k <= blocks.len() {
        assert(writes_in_order(table)[k] == blocks[k - 1]);
    }
}

/// A file that was left after any number of the writes but all of them has a header that asks for
/// the counts to be rebuilt, if the first write was made.
pub proof fn an_unfinished_rebuild_is_redone(table: Seq<u64>, n: int, k: int)
    requires
        table.len() <= usize::MAX,
        0 <= k < n < writes_in_order(table).len(),
        writes_in_order(table)[k] is Header,
    ensures
        writes_in_order(table)[k] == Write::Header(true),
{
    let blocks = block_writes(table, table.len() as int);
    every_block_is_written_once(table, table.len() as int);
    if 0 < k <= blocks.len() {
        assert(writes_in_order(table)[k] == blocks[k - 1]);
    }
}

/// Sets or clears the lazy-refcounts bit.
pub fn set_lazy_refcounts(h: &mut QcowHeader, on: bool)
    ensures
        *final(h) == (QcowHeader {
            compatible_features: if on {
                old(h).compatible_features | qcow::COMPATIBLE_FEATURES_LAZY_REFCOUNTS
            } else {
                old(h).compatible_features & !qcow::COMPATIBLE_FEATURES_LAZY_REFCOUNTS
            },
            ..*old(h)
        }),
        final(h).compatible_features == with_lazy(old(h).compatible_features, on),
{
    h.compatible_features = if on {
        h.compatible_features | qcow::COMPATIBLE_FEATURES_LAZY_REFCOUNTS
    } else {
        h.compatible_features & !qcow::COMPATIBLE_FEATURES_LAZY_REFCOUNTS
    };
}

/// A header with the bit set asks for its counts to be rebuilt.
pub proof fn lazy_refcounts_are_rebuilt(h: QcowHeader, first_refblock: u64, first_refcount: u16)
    ensures
        open::rebuild_needed(
            QcowHeader {
                compatible_features: h.compatible_features
                    | qcow::COMPATIBLE_FEATURES_LAZY_REFCOUNTS,
                ..h
            },
            first_refblock,
            first_refcount,
        ),
{
    let f = h.compatible_features;
    assert((f | 1u64) & 1u64 != 0) by (bit_vector);
}

/// The compatible features with the lazy-refcounts bit set or cleared.
pub open spec fn with_lazy(features: u64, on: bool) -> u64 {
    if on {
        features | qcow::COMPATIBLE_FEATURES_LAZY_REFCOUNTS
    } else {
        features & !qcow::COMPATIBLE_FEATURES_LAZY_REFCOUNTS
    }
}

/// The bit for lazy counts is the lowest one, and no other changes with it.
pub proof fn the_lowest_bit_is_for_lazy_counts(features: u64, on: bool)
    ensures
        with_lazy(features, on) / 2 == features / 2,
        with_lazy(features, on) % 2 == 1 <==> on,
{
    assert((features | 1u64) / 2 == features / 2 && (features | 1u64) % 2 == 1 && (features & !1u64)
        / 2 == features / 2 && (features & !1u64) % 2 == 0) by (bit_vector);
}

/// The blocks of a rebuild have room for the counts of the image and its tables, of the blocks that hold
/// those and of the table that points at them, and of the blocks for these.
pub proof fn a_rebuild_counts_its_own_blocks(h: QcowHeader)
    requires
        open::geometry_of(h).wf(),
        h.size <= qcow::MAX_QCOW_FILE_SIZE,
    ensures
        ({
            let per = open::geometry_of(h).cs() / 2;
            let blocks = refblocks_for_tables(h);
            let more = refblocks_for_refs(h);
            &&& table_clusters(h) == 1 + open::l1_clusters(h) + open::l2_tables(h)
                + open::data_clusters(h)
            &&& blocks * per >= table_clusters(h)
            &&& reftables(h) * open::geometry_of(h).entries() >= blocks
            &&& more * per >= blocks + reftables(h)
            &&& max_clusters(h) >= table_clusters(h) + blocks + reftables(h) + more
            &&& refblocks(h) * per >= max_clusters(h)
            &&& (refblocks(h) - 1) * per < max_clusters(h)
        }),
{
    let g = open::geometry_of(h);
    g.bounds();
    sizes_are_small(h);
    let per = g.cs() / 2;
    geometry::ceil_div_is_least(table_clusters(h), per, refblocks_for_tables(h));
    geometry::ceil_div_is_least(refblocks_for_tables(h), g.entries(), reftables(h));
    geometry::ceil_div_is_least(
        refblocks_for_tables(h) + reftables(h),
        per,
        refblocks_for_refs(h),
    );
    geometry::ceil_div_is_least(max_clusters(h), per, refblocks(h));
    geometry::ceil_div_is_least(max_clusters(h), per, refblocks(h) - 1);
}

/// A rebuild is refused exactly where there are more clusters than are kept in memory, or where the file
/// goes on for more than a cluster behind all that there can be.
pub proof fn rebuilds_that_are_refused(h: QcowHeader, file_size: u64)
    ensures
        plan_error(h, file_size) is None <==> max_clusters(h) <= 35_000_000 && file_size
            <= max_clusters(h) * open::geometry_of(h).cs() + open::geometry_of(h).cs(),
        plan_error(h, file_size) matches Some(e) ==> e is InvalidRefcountTableSize,
{
}

/// The refcount table that is written has an entry for every block and for every one that is read when
/// the image is opened, unless its clusters have no room for so many.
pub proof fn tables_that_are_written_are_read(h: QcowHeader)
    ensures
        table_entries(h) <= h.refcount_table_clusters * open::geometry_of(h).entries(),
        table_entries(h) == table_room(h) || (table_entries(h) >= refblocks(h) && table_entries(h)
            >= open::refcount_clusters(h)),
        table_entries(h) <= refblocks(h) || table_entries(h) <= open::refcount_clusters(h),
{
}

/// An entry of the file refers to the clusters that its payload touches, where its second highest bit
/// marks it as compressed, and otherwise to the one cluster at its offset, where it has one: the bits
/// that are no part of that do not matter, nor whether the cluster reads as zeroes.
pub proof fn entries_refer_to_their_clusters(entry: u64, cluster_bits: u32)
    ensures
        ({
            let at = entry % 0x100_0000_0000_0000 - entry % 512;
            let refs = entry_refs(entry, cluster_bits);
            &&& entry / 0x4000_0000_0000_0000 % 2 == 1 ==> refs == geometry::host_clusters(
                entry,
                cluster_bits,
            )
            &&& entry / 0x4000_0000_0000_0000 % 2 == 0 && at > 0 ==> refs.len() == 1 && refs[0]
                == at
            &&& entry / 0x4000_0000_0000_0000 % 2 == 0 && at == 0 ==> refs.len() == 0
        }),
{
    assert((entry & 0x4000_0000_0000_0000u64 != 0) == (entry / 0x4000_0000_0000_0000 % 2 == 1)
        && entry & 0x00ff_ffff_ffff_fe00u64 == entry % 0x100_0000_0000_0000u64 - entry % 512)
        by (bit_vector);
}

} // verus!
