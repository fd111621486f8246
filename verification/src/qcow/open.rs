//! Whether an image can be opened, and with which tables.

use vstd::arithmetic::div_mod::*;
use vstd::arithmetic::power2::*;
use vstd::prelude::*;

use crate::qcow;
use crate::qcow::geometry;
use crate::qcow::geometry::Geometry;
use crate::qcow::header::QcowHeader;
use crate::qcow::Error;

verus! {

/// The incompatible features that make an image unreadable.
pub open spec fn unsupported_features(features: u64) -> u64 {
    features & !qcow::SUPPORTED_INCOMPATIBLE_FEATURES
}

/// What the header says that rules the image out before its backing file is looked at.
pub open spec fn format_error(h: QcowHeader) -> Option<Error> {
    if h.version != 3 {
        Some(Error::UnsupportedVersion(h.version))
    } else if unsupported_features(h.incompatible_features) != 0 {
        Some(Error::UnsupportedIncompatibleFeatures(unsupported_features(h.incompatible_features)))
    } else if h.compression_type != qcow::QCOW_COMPRESSION_TYPE_ZLIB && h.compression_type
        != qcow::QCOW_COMPRESSION_TYPE_ZSTD {
        Some(Error::UnsupportedCompressionType(h.compression_type))
    } else if (h.incompatible_features & qcow::INCOMPATIBLE_FEATURES_COMPRESSION != 0) != (
    h.compression_type != qcow::QCOW_COMPRESSION_TYPE_ZLIB) {
        Some(
            Error::UnsupportedCompressionFeatureMismatch {
                compression_type: h.compression_type,
                incompatible_features: h.incompatible_features,
            },
        )
    } else if h.l1_size > qcow::MAX_RAM_POINTER_TABLE_SIZE {
        Some(Error::InvalidL1TableSize(h.l1_size))
    } else if !(qcow::MIN_CLUSTER_BITS <= h.cluster_bits <= qcow::MAX_CLUSTER_BITS) {
        Some(Error::InvalidClusterSize)
    } else if h.size > qcow::MAX_QCOW_FILE_SIZE {
        Some(Error::FileTooBig(h.size))
    } else {
        None
    }
}

/// `offset` lies on a cluster boundary.
pub open spec fn aligned(offset: u64, cluster_bits: u32) -> bool {
    offset as int % pow2(cluster_bits as nat) as int == 0
}

/// What the header says of its tables that rules the image out.
pub open spec fn layout_error(h: QcowHeader, read_only: bool, file_size: u64) -> Option<Error> {
    if h.refcount_order != qcow::DEFAULT_REFCOUNT_ORDER {
        Some(Error::UnsupportedRefcountOrder)
    } else if h.refcount_table_clusters == 0 {
        Some(Error::NoRefcountClusters)
    } else if !aligned(h.l1_table_offset, h.cluster_bits) {
        Some(Error::InvalidOffset(h.l1_table_offset))
    } else if !aligned(h.snapshots_offset, h.cluster_bits) {
        Some(Error::InvalidOffset(h.snapshots_offset))
    } else if !read_only && h.nb_snapshots != 0 {
        Some(Error::SnapshotsUnsupported)
    } else if !aligned(h.refcount_table_offset, h.cluster_bits) {
        Some(Error::InvalidOffset(h.refcount_table_offset))
    } else if h.refcount_table_offset > file_size && h.refcount_table_offset > h.size {
        Some(Error::RefcountTableOffEnd)
    } else {
        None
    }
}

/// The shape of an image whose format was checked.
pub open spec fn geometry_of(h: QcowHeader) -> Geometry {
    Geometry { cluster_bits: h.cluster_bits, virtual_size: h.size }
}

/// The clusters that the guest sees.
pub open spec fn data_clusters(h: QcowHeader) -> int {
    geometry::ceil_div(h.size as int, geometry_of(h).cs())
}

/// The L2 tables that they need, which is how many entries the L1 table has.
pub open spec fn l2_tables(h: QcowHeader) -> int {
    geometry::ceil_div(data_clusters(h), geometry_of(h).entries())
}

/// The clusters of the L1 table.
pub open spec fn l1_clusters(h: QcowHeader) -> int {
    geometry::ceil_div(l2_tables(h) * 8, geometry_of(h).cs())
}

/// The clusters that the counts take at most. The number of clusters that are counted is kept in
/// 32 bits.
pub open spec fn refcount_clusters(h: QcowHeader) -> int {
    geometry::refcount_clusters_for(
        2,
        geometry_of(h).cs(),
        (data_clusters(h) + l1_clusters(h) + l2_tables(h) + 1) % 0x1_0000_0000,
    )
}

/// What the sizes of the tables rule out.
pub open spec fn tables_error(h: QcowHeader) -> Option<Error> {
    if h.refcount_table_clusters > 2 * refcount_clusters(h) {
        Some(Error::RefcountTableTooLarge)
    } else if l1_clusters(h) + refcount_clusters(h) > qcow::MAX_RAM_POINTER_TABLE_SIZE {
        Some(Error::TooManyRefcounts(refcount_clusters(h) as u64))
    } else {
        None
    }
}

/// A table that does not fit the address space.
pub open spec fn address_space_error(h: QcowHeader) -> Option<Error> {
    if h.l1_table_offset + geometry_of(h).l1_of(h.size as int) * 8 > u64::MAX {
        Some(Error::InvalidL1TableOffset)
    } else if h.refcount_table_offset + h.refcount_table_clusters * geometry_of(h).cs() > u64::MAX {
        Some(Error::InvalidRefcountTableOffset)
    } else {
        None
    }
}

/// The error as a result.
pub open spec fn refused(e: Option<Error>) -> Result<(), Error> {
    match e {
        Some(e) => Err(e),
        None => Ok(()),
    }
}

/// Checks what the header says before the backing file is looked at.
pub fn check_format(h: &QcowHeader) -> (r: Result<(), Error>)
    ensures
        r == refused(format_error(*h)),
        r is Ok ==> geometry_of(*h).wf(),
{
    if h.version != 3 {
        return Err(Error::UnsupportedVersion(h.version));
    }
    // An unknown feature is one without which the image cannot be read right.
    let unsupported: u64 = h.incompatible_features & !qcow::SUPPORTED_INCOMPATIBLE_FEATURES;
    if unsupported != 0 {
        return Err(Error::UnsupportedIncompatibleFeatures(unsupported));
    }
    if h.compression_type != qcow::QCOW_COMPRESSION_TYPE_ZLIB && h.compression_type
        != qcow::QCOW_COMPRESSION_TYPE_ZSTD {
        return Err(Error::UnsupportedCompressionType(h.compression_type));
    }
    // The feature bit goes with a compression type other than the default, and with no other.
    let bit_set = h.incompatible_features & qcow::INCOMPATIBLE_FEATURES_COMPRESSION != 0;
    let non_default = h.compression_type != qcow::QCOW_COMPRESSION_TYPE_ZLIB;
    if bit_set != non_default {
        return Err(
            Error::UnsupportedCompressionFeatureMismatch {
                compression_type: h.compression_type,
                incompatible_features: h.incompatible_features,
            },
        );
    }
    if h.l1_size as u64 > qcow::MAX_RAM_POINTER_TABLE_SIZE {
        return Err(Error::InvalidL1TableSize(h.l1_size));
    }
    if h.cluster_bits < qcow::MIN_CLUSTER_BITS || h.cluster_bits > qcow::MAX_CLUSTER_BITS {
        return Err(Error::InvalidClusterSize);
    }
    if h.size > qcow::MAX_QCOW_FILE_SIZE {
        return Err(Error::FileTooBig(h.size));
    }
    Ok(())
}

/// Checks what the header says of its tables, for a file of `file_size` bytes.
///
/// An image with internal snapshots is not opened for writing: clusters that only a snapshot
/// refers to would be handed out again.
pub fn check_layout(h: &QcowHeader, read_only: bool, file_size: u64) -> (r: Result<(), Error>)
    requires
        geometry_of(*h).wf(),
    ensures
        r == refused(layout_error(*h, read_only, file_size)),
{
    if h.refcount_order != qcow::DEFAULT_REFCOUNT_ORDER {
        return Err(Error::UnsupportedRefcountOrder);
    }
    if h.refcount_table_clusters == 0 {
        return Err(Error::NoRefcountClusters);
    }
    match geometry::offset_is_cluster_boundary(h.l1_table_offset, h.cluster_bits) {
        Ok(()) => {},
        Err(e) => {
            return Err(e);
        },
    }
    match geometry::offset_is_cluster_boundary(h.snapshots_offset, h.cluster_bits) {
        Ok(()) => {},
        Err(e) => {
            return Err(e);
        },
    }
    if !read_only && h.nb_snapshots != 0 {
        return Err(Error::SnapshotsUnsupported);
    }
    match geometry::offset_is_cluster_boundary(h.refcount_table_offset, h.cluster_bits) {
        Ok(()) => {},
        Err(e) => {
            return Err(e);
        },
    }
    if h.refcount_table_offset > file_size && h.refcount_table_offset > h.size {
        return Err(Error::RefcountTableOffEnd);
    }
    Ok(())
}

/// The counts have to be rebuilt before they can be trusted: the first cluster is not counted, or
/// the header says that the counts lag behind.
pub open spec fn rebuild_needed(h: QcowHeader, first_refblock: u64, first_refcount: u16) -> bool {
    ||| first_refblock == 0
    ||| first_refcount == 0
    ||| h.compatible_features & qcow::COMPATIBLE_FEATURES_LAZY_REFCOUNTS != 0
    ||| h.incompatible_features & qcow::INCOMPATIBLE_FEATURES_DIRTY != 0
}

/// Whether the counts have to be rebuilt. `first_refblock` is the first entry of the refcount
/// table; `first_refcount`, where that is not zero, the first count of the block it points at.
pub fn rebuild_required(h: &QcowHeader, first_refblock: u64, first_refcount: u16) -> (r: bool)
    ensures
        r == rebuild_needed(*h, first_refblock, first_refcount),
{
    if first_refblock == 0 || first_refcount == 0 {
        return true;
    }
    if h.compatible_features & qcow::COMPATIBLE_FEATURES_LAZY_REFCOUNTS != 0 {
        return true;
    }
    h.incompatible_features & qcow::INCOMPATIBLE_FEATURES_DIRTY != 0
}

/// The numbers of clusters are in range once the format was checked.
pub(crate) proof fn counts_are_small(h: QcowHeader)
    requires
        geometry_of(h).wf(),
        h.size <= qcow::MAX_QCOW_FILE_SIZE,
    ensures
        0 <= data_clusters(h) <= 0x8_0000_0000,
        0 <= l2_tables(h) <= data_clusters(h),
        0 <= l1_clusters(h) <= l2_tables(h),
{
    let g = geometry_of(h);
    g.bounds();
    lemma_div_is_ordered_by_denominator(h.size as int, 512, g.cs());
    lemma_div_pos_is_pos(h.size as int, g.cs());
    geometry::ceil_div_is_least(h.size as int, g.cs(), 0x8_0000_0000);
    assert(0x8_0000_0000 * g.cs() >= 0x8_0000_0000 * 512) by (nonlinear_arith)
        requires
            g.cs() >= 512,
    ;
    ceil_div_shrinks(data_clusters(h), g.entries());
    l1_clusters_are_few(l2_tables(h), g.cs());
}

/// A table of `n` entries takes no more than `n` clusters.
pub(crate) proof fn l1_clusters_are_few(n: int, cs: int)
    requires
        0 <= n,
        8 <= cs,
    ensures
        0 <= geometry::ceil_div(n * 8, cs) <= n,
{
    geometry::ceil_div_is_least(n * 8, cs, n);
    lemma_div_pos_is_pos(n * 8, cs);
    assert(n * cs >= n * 8) by (nonlinear_arith)
        requires
            n >= 0,
            cs >= 8,
    ;
}

/// Rounding up does not go past the number itself.
proof fn ceil_div_shrinks(a: int, b: int)
    requires
        0 <= a,
        0 < b,
    ensures
        0 <= geometry::ceil_div(a, b) <= a,
{
    geometry::ceil_div_is_least(a, b, a);
    lemma_div_pos_is_pos(a, b);
    assert(a * b >= a) by (nonlinear_arith)
        requires
            a >= 0,
            b >= 1,
    ;
}

/// How many entries of the L1 table there are to read.
pub fn l1_entries(h: &QcowHeader) -> (r: Result<u64, Error>)
    requires
        geometry_of(*h).wf(),
        h.size <= qcow::MAX_QCOW_FILE_SIZE,
    ensures
        r == (if l2_tables(*h) > qcow::MAX_RAM_POINTER_TABLE_SIZE {
            Err(Error::TooManyL1Entries(l2_tables(*h) as u64))
        } else {
            Ok(l2_tables(*h) as u64)
        }),
        r is Ok ==> r->Ok_0 == l2_tables(*h),
{
    let g = Geometry { cluster_bits: h.cluster_bits, virtual_size: h.size };
    proof {
        counts_are_small(*h);
        g.bounds();
    }
    let clusters: u64 = geometry::div_ceil(h.size, g.cluster_size());
    let tables: u64 = geometry::div_ceil(clusters, g.l2_entries());
    if tables > qcow::MAX_RAM_POINTER_TABLE_SIZE {
        return Err(Error::TooManyL1Entries(tables));
    }
    Ok(tables)
}

/// How many clusters the counts take at most.
pub(crate) fn most_refcount_clusters(h: &QcowHeader) -> (r: u64)
    requires
        geometry_of(*h).wf(),
        h.size <= qcow::MAX_QCOW_FILE_SIZE,
    ensures
        r == refcount_clusters(*h),
        r <= 0x400_0000,
{
    let g = Geometry { cluster_bits: h.cluster_bits, virtual_size: h.size };
    proof {
        counts_are_small(*h);
        g.bounds();
        lemma2_to64();
        assert(geometry::refcount_bytes(4) == 2);
    }
    let cs: u64 = g.cluster_size();
    let clusters: u64 = geometry::div_ceil(h.size, cs);
    let tables: u64 = geometry::div_ceil(clusters, g.l2_entries());
    let l1: u64 = geometry::div_ceil(tables * 8, cs);
    let total: u64 = (clusters + l1 + tables + qcow::HEADER_CLUSTERS) % 0x1_0000_0000;
    proof {
        few_refcount_clusters(total as int, cs as int);
    }
    geometry::max_refcount_clusters(qcow::DEFAULT_REFCOUNT_ORDER, cs as u32, total as u32)
}

/// There are few clusters of counts.
pub(crate) proof fn refcounts_are_few(h: QcowHeader)
    requires
        geometry_of(h).wf(),
    ensures
        0 <= refcount_clusters(h) <= 0x400_0000,
{
    let g = geometry_of(h);
    g.bounds();
    let total = data_clusters(h) + l1_clusters(h) + l2_tables(h) + 1;
    lemma_mod_bound(total, 0x1_0000_0000);
    few_refcount_clusters(total % 0x1_0000_0000, g.cs());
}

/// The counts of a file take few clusters.
proof fn few_refcount_clusters(total: int, cs: int)
    requires
        0 <= total < 0x1_0000_0000,
        512 <= cs,
    ensures
        0 <= geometry::refcount_clusters_for(2, cs, total) <= 0x400_0000,
{
    let for_data = geometry::ceil_div(total * 2, cs);
    lemma_div_pos_is_pos(total * 2, cs);
    geometry::ceil_div_is_least(total * 2, cs, 0x100_0000);
    assert(0x100_0000 * cs >= 0x100_0000 * 512);
    ceil_div_shrinks(for_data * 2, cs);
}

/// How many clusters the counts take at most, if the refcount table agrees.
pub fn check_tables(h: &QcowHeader) -> (r: Result<u64, Error>)
    requires
        geometry_of(*h).wf(),
        h.size <= qcow::MAX_QCOW_FILE_SIZE,
    ensures
        match tables_error(*h) {
            Some(e) => r == Err::<u64, Error>(e),
            None => r is Ok && r->Ok_0 == refcount_clusters(*h),
        },
{
    let g = Geometry { cluster_bits: h.cluster_bits, virtual_size: h.size };
    proof {
        counts_are_small(*h);
        g.bounds();
        lemma2_to64();
        assert(geometry::refcount_bytes(4) == 2);
    }
    let cs: u64 = g.cluster_size();
    let clusters: u64 = geometry::div_ceil(h.size, cs);
    let tables: u64 = geometry::div_ceil(clusters, g.l2_entries());
    let l1: u64 = geometry::div_ceil(tables * 8, cs);
    let counts: u64 = most_refcount_clusters(h);
    if h.refcount_table_clusters as u64 > 2 * counts {
        return Err(Error::RefcountTableTooLarge);
    }
    if l1 + counts > qcow::MAX_RAM_POINTER_TABLE_SIZE {
        return Err(Error::TooManyRefcounts(counts));
    }
    Ok(counts)
}

/// Checks that the tables fit a 64-bit address space.
pub fn check_address_space(h: &QcowHeader) -> (r: Result<(), Error>)
    requires
        geometry_of(*h).wf(),
    ensures
        r == refused(address_space_error(*h)),
{
    let g = Geometry { cluster_bits: h.cluster_bits, virtual_size: h.size };
    if h.l1_table_offset.checked_add(g.l1_address_offset(h.size)).is_none() {
        return Err(Error::InvalidL1TableOffset);
    }
    let cs: u64 = g.cluster_size();
    proof {
        assert(0 <= h.refcount_table_clusters * cs <= u32::MAX * 0x20_0000) by (nonlinear_arith)
            requires
                0 <= h.refcount_table_clusters <= u32::MAX,
                0 <= cs <= 0x20_0000,
        ;
    }
    if h.refcount_table_offset.checked_add(h.refcount_table_clusters as u64 * cs).is_none() {
        return Err(Error::InvalidRefcountTableOffset);
    }
    Ok(())
}

/// The addresses of the first `n` clusters that are not referenced, in order.
pub open spec fn unreferenced(counts: Seq<u16>, n: int, cs: int) -> Seq<u64>
    decreases n,
{
    if n <= 0 {
        Seq::empty()
    } else if counts[n - 1] == 0 {
        unreferenced(counts, n - 1, cs).push(((n - 1) * cs) as u64)
    } else {
        unreferenced(counts, n - 1, cs)
    }
}

/// The clusters of the file that are not referenced. `counts` holds the count of every cluster of
/// the file.
pub fn find_avail_clusters(counts: &Vec<u16>, cluster_size: u64) -> (r: Vec<u64>)
    requires
        counts@.len() > 0 ==> (counts@.len() - 1) * cluster_size <= u64::MAX,
    ensures
        r@ == unreferenced(counts@, counts@.len() as int, cluster_size as int),
{
    let mut avail: Vec<u64> = Vec::new();
    let mut i: usize = 0;
    while i < counts.len()
        invariant
            i <= counts@.len(),
            counts@.len() > 0 ==> (counts@.len() - 1) * cluster_size <= u64::MAX,
            avail@ == unreferenced(counts@, i as int, cluster_size as int),
        decreases counts@.len() - i,
    {
        if counts[i] == 0 {
            proof {
                assert(0 <= i * cluster_size <= (counts@.len() - 1) * cluster_size)
                    by (nonlinear_arith)
                    requires
                        0 <= i <= counts@.len() - 1,
                        cluster_size >= 0,
                ;
            }
            avail.push(i as u64 * cluster_size);
        }
        i = i + 1;
    }
    avail
}

/// Every cluster of the file with a count of zero, which is what there is to hand out.
pub fn zero_refcount_clusters(counts: &Vec<u16>, cluster_size: u64) -> (r: Vec<u64>)
    requires
        counts@.len() > 0 ==> (counts@.len() - 1) * cluster_size <= u64::MAX,
    ensures
        r@ == unreferenced(counts@, counts@.len() as int, cluster_size as int),
{
    find_avail_clusters(counts, cluster_size)
}

/// A cluster is handed out exactly where its count is zero.
pub proof fn unreferenced_is_exact(counts: Seq<u16>, n: int, cs: int, i: int)
    requires
        0 <= i < n <= counts.len(),
        0 < cs,
        counts.len() * cs <= u64::MAX,
    ensures
        unreferenced(counts, n, cs).contains((i * cs) as u64) <==> counts[i] == 0,
    decreases n,
{
    let before = unreferenced(counts, n - 1, cs);
    let now = unreferenced(counts, n, cs);
    assert(0 <= i * cs <= counts.len() * cs) by (nonlinear_arith)
        requires
            0 <= i <= counts.len(),
            cs > 0,
    ;
    assert(0 <= (n - 1) * cs <= counts.len() * cs) by (nonlinear_arith)
        requires
            0 <= n - 1 <= counts.len(),
            cs > 0,
    ;
    if i == n - 1 {
        if counts[i] == 0 {
            assert(now[before.len() as int] == (i * cs) as u64);
        } else if now.contains((i * cs) as u64) {
            unreferenced_below(counts, n - 1, cs);
            let j = choose|j: int| 0 <= j < now.len() && now[j] == (i * cs) as u64;
            assert(now[j] < (n - 1) * cs);
        }
    } else {
        unreferenced_is_exact(counts, n - 1, cs, i);
        assert(i * cs != (n - 1) * cs) by (nonlinear_arith)
            requires
                i < n - 1,
                cs > 0,
        ;
        if before.contains((i * cs) as u64) {
            let j = choose|j: int| 0 <= j < before.len() && before[j] == (i * cs) as u64;
            assert(now[j] == (i * cs) as u64);
        }
        if now.contains((i * cs) as u64) {
            let j = choose|j: int| 0 <= j < now.len() && now[j] == (i * cs) as u64;
            if counts[n - 1] == 0 {
                assert(j < before.len());
            }
            assert(before[j] == (i * cs) as u64);
        }
    }
}

/// Every cluster that is handed out is one whose count is zero, and none is handed out twice.
pub proof fn unreferenced_are_clusters(counts: Seq<u16>, n: int, cs: int)
    requires
        0 <= n <= counts.len(),
        0 < cs,
        counts.len() * cs <= u64::MAX,
    ensures
        unreferenced(counts, n, cs).no_duplicates(),
        forall|j: int|
            0 <= j < unreferenced(counts, n, cs).len() ==> {
                let a = #[trigger] unreferenced(counts, n, cs)[j] as int;
                &&& a % cs == 0
                &&& 0 <= a / cs < n
                &&& counts[a / cs] == 0
            },
    decreases n,
{
    if n > 0 {
        unreferenced_are_clusters(counts, n - 1, cs);
        unreferenced_below(counts, n - 1, cs);
        let before = unreferenced(counts, n - 1, cs);
        let now = unreferenced(counts, n, cs);
        assert(0 <= (n - 1) * cs <= counts.len() * cs) by (nonlinear_arith)
            requires
                0 <= n - 1 <= counts.len(),
                cs > 0,
        ;
        lemma_fundamental_div_mod_converse((n - 1) * cs, cs, n - 1, 0);
        assert forall|j: int| 0 <= j < now.len() implies {
            let a = #[trigger] now[j] as int;
            &&& a % cs == 0
            &&& 0 <= a / cs < n
            &&& counts[a / cs] == 0
        } by {
            if j < before.len() {
                assert(now[j] == before[j]);
            }
        }
        assert forall|j: int, k: int| 0 <= j < now.len() && 0 <= k < now.len() && j
            != k implies now[j] != now[k] by {
            if j < before.len() {
                assert(now[j] == before[j]);
            }
            if k < before.len() {
                assert(now[k] == before[k]);
            }
        }
    }
}

/// Clusters come in order.
pub(crate) proof fn unreferenced_below(counts: Seq<u16>, n: int, cs: int)
    requires
        0 <= n <= counts.len(),
        0 < cs,
        counts.len() * cs <= u64::MAX,
    ensures
        forall|j: int|
            0 <= j < unreferenced(counts, n, cs).len() ==> #[trigger] unreferenced(counts, n, cs)[j]
                < n * cs,
    decreases n,
{
    if n > 0 {
        unreferenced_below(counts, n - 1, cs);
        assert((n - 1) * cs < n * cs && 0 <= (n - 1) * cs <= counts.len() * cs)
            by (nonlinear_arith)
            requires
                0 <= n - 1 < counts.len(),
                cs > 0,
        ;
        let before = unreferenced(counts, n - 1, cs);
        let now = unreferenced(counts, n, cs);
        assert forall|j: int| 0 <= j < now.len() implies #[trigger] now[j] < n * cs by {
            if j < before.len() {
                assert(now[j] == before[j]);
            }
        }
    }
}

/// The clusters that a new image uses before any data is written: everything up to the end of the
/// refcount table.
pub fn reserved_clusters(h: &QcowHeader) -> (r: Vec<u64>)
    requires
        geometry_of(*h).wf(),
        address_space_error(*h) is None,
    ensures
        ({
            let cs = geometry_of(*h).cs();
            let end = h.refcount_table_offset + h.refcount_table_clusters * cs;
            r@ == Seq::new(geometry::ceil_div(end, cs) as nat, |i: int| (i * cs) as u64)
        }),
{
    let g = Geometry { cluster_bits: h.cluster_bits, virtual_size: h.size };
    let cs: u64 = g.cluster_size();
    proof {
        assert(0 <= h.refcount_table_clusters * cs) by (nonlinear_arith)
            requires
                0 <= h.refcount_table_clusters,
                0 <= cs,
        ;
    }
    let end: u64 = h.refcount_table_offset + h.refcount_table_clusters as u64 * cs;
    let n: u64 = geometry::div_ceil(end, cs);
    let mut clusters: Vec<u64> = Vec::new();
    let mut i: u64 = 0;
    while i < n
        invariant
            i <= n,
            cs > 0,
            n == geometry::ceil_div(end as int, cs as int),
            clusters@ =~= Seq::new(i as nat, |j: int| (j * cs) as u64),
        decreases n - i,
    {
        proof {
            geometry::ceil_div_is_least(end as int, cs as int, i as int);
            assert(0 <= i * cs) by (nonlinear_arith)
                requires
                    0 <= i,
                    0 < cs,
            ;
        }
        clusters.push(i * cs);
        i = i + 1;
    }
    clusters
}

/// An image that is read for its counts has the dirty bit unset, or they are rebuilt first.
pub proof fn dirty_counts_are_not_trusted(h: QcowHeader, first_refblock: u64, first_refcount: u16)
    requires
        !rebuild_needed(h, first_refblock, first_refcount),
    ensures
        h.incompatible_features & qcow::INCOMPATIBLE_FEATURES_DIRTY == 0,
        h.compatible_features & qcow::COMPATIBLE_FEATURES_LAZY_REFCOUNTS == 0,
        first_refblock != 0,
        first_refcount != 0,
{
}

/// Of an image whose format is accepted, no incompatible feature is set but the dirty and the
/// compression bit, and the latter goes with the compression type.
pub proof fn accepted_features(h: QcowHeader)
    requires
        format_error(h) is None,
    ensures
        h.incompatible_features == (h.incompatible_features & qcow::INCOMPATIBLE_FEATURES_DIRTY) | (
        if h.compression_type == qcow::QCOW_COMPRESSION_TYPE_ZSTD {
            qcow::INCOMPATIBLE_FEATURES_COMPRESSION
        } else {
            0u64
        }),
{
    let f = h.incompatible_features;
    assert(f & !9u64 == 0 && f & 8u64 != 0 ==> f == (f & 1u64) | 8u64) by (bit_vector);
    assert(f & !9u64 == 0 && f & 8u64 == 0 ==> f == (f & 1u64) | 0u64) by (bit_vector);
}

/// An image is of version three, has no feature that is not understood but the bits for counts that lag
/// behind and for a compression type, and has the latter exactly where its compression is not the
/// default one; its clusters, its L1 table and its size are within bounds.
pub proof fn formats_that_are_accepted(h: QcowHeader)
    ensures
        format_error(h) is None <==> {
            &&& h.version == 3
            &&& h.incompatible_features & !9u64 == 0
            &&& h.compression_type == 0 || h.compression_type == 1
            &&& (h.incompatible_features & 8 != 0) <==> h.compression_type == 1
            &&& h.l1_size <= 35_000_000
            &&& 9 <= h.cluster_bits <= 21
            &&& h.size <= 16 * 1024 * 1024 * 1024 * 1024
        },
        format_error(h) matches Some(e) ==> match e {
            Error::UnsupportedVersion(v) => v == h.version && v != 3,
            Error::UnsupportedIncompatibleFeatures(f) => f == h.incompatible_features & !9u64 && f
                != 0,
            Error::UnsupportedCompressionType(t) => t == h.compression_type && t > 1,
            Error::UnsupportedCompressionFeatureMismatch {
                compression_type,
                incompatible_features,
            } => compression_type == h.compression_type && incompatible_features
                == h.incompatible_features,
            Error::InvalidL1TableSize(n) => n == h.l1_size && n > 35_000_000,
            Error::InvalidClusterSize => h.cluster_bits < 9 || h.cluster_bits > 21,
            Error::FileTooBig(n) => n == h.size && n > 16 * 1024 * 1024 * 1024 * 1024,
            _ => false,
        },
{
}

/// An offset lies on a cluster boundary exactly where whole clusters lie before it.
pub proof fn boundaries_are_whole_clusters(offset: u64, cluster_bits: u32)
    requires
        9 <= cluster_bits <= 21,
    ensures
        aligned(offset, cluster_bits) <==> exists|n: int|
            offset == #[trigger] (n * pow2(cluster_bits as nat)),
{
    let c = pow2(cluster_bits as nat) as int;
    lemma_pow2_pos(cluster_bits as nat);
    lemma_fundamental_div_mod(offset as int, c);
    if aligned(offset, cluster_bits) {
        let n = offset as int / c;
        assert(c * n == n * c) by (nonlinear_arith);
        assert(offset == n * pow2(cluster_bits as nat));
    }
    if exists|n: int| offset == #[trigger] (n * pow2(cluster_bits as nat)) {
        let n = choose|n: int| offset == #[trigger] (n * pow2(cluster_bits as nat));
        lemma_mod_multiples_basic(n, c);
    }
}

/// The tables of an image are on cluster boundaries, its counts have two bytes each and a table, and that
/// begins in the file or in the disk; an image with snapshots is opened for reading only.
pub proof fn layouts_that_are_accepted(h: QcowHeader, read_only: bool, file_size: u64)
    ensures
        layout_error(h, read_only, file_size) is None <==> {
            &&& h.refcount_order == 4
            &&& h.refcount_table_clusters >= 1
            &&& aligned(h.l1_table_offset, h.cluster_bits)
            &&& aligned(h.snapshots_offset, h.cluster_bits)
            &&& aligned(h.refcount_table_offset, h.cluster_bits)
            &&& read_only || h.nb_snapshots == 0
            &&& h.refcount_table_offset <= file_size || h.refcount_table_offset <= h.size
        },
        layout_error(h, read_only, file_size) matches Some(e) ==> match e {
            Error::UnsupportedRefcountOrder => h.refcount_order != 4,
            Error::NoRefcountClusters => h.refcount_table_clusters == 0,
            Error::InvalidOffset(at) => !aligned(at, h.cluster_bits),
            Error::SnapshotsUnsupported => !read_only && h.nb_snapshots > 0,
            Error::RefcountTableOffEnd => h.refcount_table_offset > file_size
                && h.refcount_table_offset > h.size,
            _ => false,
        },
{
}

/// Every byte of the disk has its cluster, every cluster its entry in an L2 table, and every L2 table its
/// eight bytes in the L1 table; nothing of it could be left out.
pub proof fn tables_map_every_byte(h: QcowHeader)
    requires
        geometry_of(h).wf(),
        h.size <= qcow::MAX_QCOW_FILE_SIZE,
    ensures
        ({
            let g = geometry_of(h);
            &&& data_clusters(h) * g.cs() >= h.size
            &&& (data_clusters(h) - 1) * g.cs() < h.size || data_clusters(h) == 0
            &&& l2_tables(h) * g.entries() >= data_clusters(h)
            &&& (l2_tables(h) - 1) * g.entries() < data_clusters(h) || l2_tables(h) == 0
            &&& l1_clusters(h) * g.cs() >= l2_tables(h) * 8
            &&& (l1_clusters(h) - 1) * g.cs() < l2_tables(h) * 8 || l1_clusters(h) == 0
        }),
{
    let g = geometry_of(h);
    g.bounds();
    counts_are_small(h);
    geometry::ceil_div_is_least(h.size as int, g.cs(), data_clusters(h));
    geometry::ceil_div_is_least(h.size as int, g.cs(), data_clusters(h) - 1);
    geometry::ceil_div_is_least(data_clusters(h), g.entries(), l2_tables(h));
    geometry::ceil_div_is_least(data_clusters(h), g.entries(), l2_tables(h) - 1);
    geometry::ceil_div_is_least(l2_tables(h) * 8, g.cs(), l1_clusters(h));
    geometry::ceil_div_is_least(l2_tables(h) * 8, g.cs(), l1_clusters(h) - 1);
}

/// The tables of an image are small enough to be kept in memory, and the refcount table is not more than
/// twice as long as the counts of the image can need; both lie where offsets can say.
pub proof fn tables_that_are_accepted(h: QcowHeader)
    ensures
        tables_error(h) is None <==> h.refcount_table_clusters <= 2 * refcount_clusters(h)
            && l1_clusters(h) + refcount_clusters(h) <= 35_000_000,
        tables_error(h) == Some(Error::RefcountTableTooLarge) <==> h.refcount_table_clusters > 2
            * refcount_clusters(h),
        address_space_error(h) is None <==> h.l1_table_offset + geometry_of(h).l1_of(h.size as int)
            * 8 < 0x1_0000_0000_0000_0000 && h.refcount_table_offset + h.refcount_table_clusters
            * geometry_of(h).cs() < 0x1_0000_0000_0000_0000,
        address_space_error(h) == Some(Error::InvalidL1TableOffset) <==> h.l1_table_offset
            + geometry_of(h).l1_of(h.size as int) * 8 >= 0x1_0000_0000_0000_0000,
{
}

/// Counts are trusted exactly where the first cluster of the file, which holds the header, is counted,
/// and neither the header's bit for lazy counts nor the one for dirty counts is set.
pub proof fn counts_that_are_trusted(h: QcowHeader, first_refblock: u64, first_refcount: u16)
    ensures
        !rebuild_needed(h, first_refblock, first_refcount) <==> {
            &&& first_refblock > 0
            &&& first_refcount > 0
            &&& h.compatible_features % 2 == 0
            &&& h.incompatible_features % 2 == 0
        },
{
    let a = h.compatible_features;
    let b = h.incompatible_features;
    assert((a & 1 != 0) == (a % 2 == 1) && (b & 1 != 0) == (b % 2 == 1)) by (bit_vector);
}

} // verus!
