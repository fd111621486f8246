//! The parts that images are read and written with.

use droidvm_core::bytes;
use droidvm_core::qcow;
use droidvm_core::qcow::cache::{decompressed_cache_capacity, ClusterCache};
use droidvm_core::qcow::counts::{cluster_at_end, Counted, RefCounts};
use droidvm_core::qcow::decompress::{
    decode_chunk, decompress_cluster_into, decompress_zstd_cluster, read_fill, Decompressed,
    Fetched, Filling, FrameReader, ReadStep,
};
use droidvm_core::qcow::geometry;
use droidvm_core::qcow::geometry::Geometry;
use droidvm_core::qcow::header::{QcowHeader, MAX_NEW_BACKING_NAME};
use droidvm_core::qcow::map::{
    read_l2_cluster, stored_entries, ClusterData, Dropped, Fill, Lookup, Mapping, WritePlan,
    ZeroPlan,
};
use droidvm_core::qcow::open;
use droidvm_core::qcow::opening::{OpenGiven, OpenNeed, OpenTurn, Opening};
use droidvm_core::qcow::place::{
    Counting, Dropping, Given, Layout, Need, Placing, Releasing, Survey, Turn, Zeroing,
};
use droidvm_core::qcow::rebuild;
use droidvm_core::qcow::rebuild::Rebuild;
use droidvm_core::qcow::rebuilding::{RebuildNeed, RebuildTurn, Rebuilding};
use droidvm_core::qcow::refcount::{release, Assignments, Outcome, Pools, Release, Step};
use droidvm_core::qcow::requests;
use droidvm_core::qcow::requests::{ReadSource, SeekFrom, WriteStep, ZeroStep};
use droidvm_core::qcow::sync::{performed, sync_caches, Action, Progress};
use droidvm_core::qcow::tables;
use droidvm_core::qcow::Error;

fn header() -> QcowHeader {
    QcowHeader::create_for_size_and_path(0x1000_0000, None).unwrap()
}

#[test]
fn numbers_are_read_as_they_were_written() {
    assert_eq!(bytes::be16_bytes(0x1234), [0x12, 0x34]);
    assert_eq!(bytes::get_be32(&bytes::be32_bytes(0xdead_beef), 0), 0xdead_beef);
    assert_eq!(bytes::get_be64(&bytes::be64_bytes(0x0102_0304_0506_0708), 0), 0x0102_0304_0506_0708);
    assert_eq!(bytes::get_le16(&bytes::le16_bytes(0x1234), 0), 0x1234);
    assert_eq!(bytes::le32_bytes(1), [1, 0, 0, 0]);
    assert_eq!(bytes::get_le32(&[9, 1, 0, 0, 0], 1), 1);
    assert_eq!(bytes::le64_bytes(2)[0], 2);
    assert!(bytes::bytes_equal(b"ab", b"ab") && !bytes::bytes_equal(b"ab", b"ac"));
    assert!(bytes::text_equal("a", "a") && !bytes::text_equal("a", "b"));
}

#[test]
fn a_new_header_has_room_for_its_tables() {
    let h = header();
    assert_eq!((h.magic, h.version, h.cluster_bits), (0x5146_49fb, 3, 16));
    assert_eq!((h.l1_size, h.l1_table_offset), (1, 0x1_0000));
    assert_eq!(h.refcount_table_offset, 0x2_0000);
    assert_eq!(h.refcount_order, 4);
    let bytes = h.to_bytes();
    let back = QcowHeader::new(&bytes).unwrap();
    assert_eq!(back.size, h.size);
    assert_eq!(back.refcount_table_clusters, h.refcount_table_clusters);
    assert_eq!(back.to_bytes(), bytes);
    assert_eq!(open::reserved_clusters(&h), vec![0, 0x1_0000, 0x2_0000]);
}

#[test]
fn headers_are_refused_for_a_reason() {
    let bytes = header().to_bytes();
    assert!(matches!(QcowHeader::new(&bytes[..50]), Err(Error::ReadingHeader)));
    assert!(matches!(QcowHeader::new(&[]), Err(Error::ReadingHeader)));
    let mut bad = bytes.clone();
    bad[0] = 0;
    assert!(matches!(QcowHeader::new(&bad), Err(Error::InvalidMagic)));

    let named = QcowHeader::create_for_size_and_path(0x1000_0000, Some("base")).unwrap();
    let mut file = Vec::new();
    named.write_to(&mut file);
    let (at, len) = named.backing_name_range().unwrap();
    assert_eq!(&file[at as usize..at as usize + len as usize], b"base");
    let mut long = file.clone();
    long[16..20].copy_from_slice(&1024u32.to_be_bytes());
    assert!(matches!(QcowHeader::new(&long), Err(Error::BackingFileTooLong(1))));
    let mut wild = file.clone();
    wild[at as usize] = 0xff;
    assert!(matches!(QcowHeader::new(&wild), Err(Error::InvalidBackingFileName)));
    let mut away = file.clone();
    away[8..16].copy_from_slice(&u64::MAX.to_be_bytes());
    assert!(matches!(QcowHeader::new(&away), Err(Error::ReadingHeader)));

    let mut h = QcowHeader::fixed_part(&file).unwrap();
    assert_eq!(h.set_backing_name(vec![0xc3, 0x28]), Err(Error::InvalidBackingFileName));
    assert_eq!(h.set_backing_name("b\u{e4}se".as_bytes().to_vec()), Ok(()));
    assert_eq!(h.backing_file_path, Some(String::from("b\u{e4}se")));

    let name = "n".repeat(MAX_NEW_BACKING_NAME + 1);
    assert!(matches!(
        QcowHeader::create_for_size_and_path(0x1000, Some(&name)),
        Err(Error::BackingFileTooLong(1))
    ));
}

#[test]
fn a_new_file_ends_with_its_refcount_table() {
    let h = QcowHeader::create_for_size_and_path(0x10_0000, None).unwrap();
    let mut file = Vec::new();
    h.write_to(&mut file);
    assert_eq!(file.len(), 0x3_0000);
    assert_eq!(h.tail_offset(), 0x2_ffff);
    assert!(file[0x1_0000..].iter().all(|b| *b == 0));
}

#[test]
fn large_l1_tables_take_several_clusters() {
    let h = QcowHeader::create_for_size_and_path(1 << 42, None).unwrap();
    assert_eq!((h.l1_size, h.refcount_table_offset), (8192, 0x2_0000));
    let h = QcowHeader::create_for_size_and_path((1 << 42) + 1, None).unwrap();
    assert_eq!((h.l1_size, h.refcount_table_offset), (8193, 0x3_0000));
    let h = QcowHeader::create_for_size_and_path(1 << 44, None).unwrap();
    assert_eq!((h.l1_size, h.refcount_table_offset), (0x8000, 0x5_0000));
}

#[test]
fn an_extended_header_keeps_its_compression_type() {
    let mut h = header();
    h.compression_type = qcow::QCOW_COMPRESSION_TYPE_ZSTD;
    h.incompatible_features = qcow::INCOMPATIBLE_FEATURES_COMPRESSION;
    h.header_size = 112;
    let bytes = h.to_bytes();
    assert_eq!(&bytes[104..112], &[1, 0, 0, 0, 0, 0, 0, 0]);
    let back = QcowHeader::new(&bytes).unwrap();
    assert_eq!(back.compression_type, qcow::QCOW_COMPRESSION_TYPE_ZSTD);
    assert_eq!(open::check_format(&back), Ok(()));
    h.header_size = 104;
    assert_eq!(&h.to_bytes()[104..112], &[0; 8]);
}

#[test]
fn images_are_refused_for_a_reason() {
    let with = |change: &dyn Fn(&mut QcowHeader)| {
        let mut h = header();
        change(&mut h);
        h
    };
    let format = |change: &dyn Fn(&mut QcowHeader)| open::check_format(&with(change)).err();
    assert_eq!(format(&|_| {}), None);
    assert_eq!(format(&|h| h.version = 2), Some(Error::UnsupportedVersion(2)));
    assert_eq!(
        format(&|h| h.incompatible_features = 0x11),
        Some(Error::UnsupportedIncompatibleFeatures(0x10))
    );
    assert_eq!(format(&|h| h.compression_type = 2), Some(Error::UnsupportedCompressionType(2)));
    assert_eq!(
        format(&|h| h.compression_type = 1),
        Some(Error::UnsupportedCompressionFeatureMismatch {
            compression_type: 1,
            incompatible_features: 0
        })
    );
    assert_eq!(format(&|h| h.l1_size = 35_000_001), Some(Error::InvalidL1TableSize(35_000_001)));
    assert_eq!(format(&|h| h.cluster_bits = 8), Some(Error::InvalidClusterSize));
    assert_eq!(format(&|h| h.cluster_bits = 22), Some(Error::InvalidClusterSize));
    assert_eq!(
        format(&|h| h.size = qcow::MAX_QCOW_FILE_SIZE + 1),
        Some(Error::FileTooBig(qcow::MAX_QCOW_FILE_SIZE + 1))
    );

    let layout = |change: &dyn Fn(&mut QcowHeader)| {
        open::check_layout(&with(change), false, 0x10_0000).err()
    };
    assert_eq!(layout(&|_| {}), None);
    assert_eq!(layout(&|h| h.refcount_order = 3), Some(Error::UnsupportedRefcountOrder));
    assert_eq!(layout(&|h| h.refcount_table_clusters = 0), Some(Error::NoRefcountClusters));
    assert_eq!(layout(&|h| h.l1_table_offset = 1), Some(Error::InvalidOffset(1)));
    assert_eq!(layout(&|h| h.snapshots_offset = 2), Some(Error::InvalidOffset(2)));
    assert_eq!(layout(&|h| h.nb_snapshots = 1), Some(Error::SnapshotsUnsupported));
    assert_eq!(layout(&|h| h.refcount_table_offset = 3), Some(Error::InvalidOffset(3)));
    assert_eq!(
        layout(&|h| h.refcount_table_offset = 0x4000_0000),
        Some(Error::RefcountTableOffEnd)
    );

    assert_eq!(open::l1_entries(&header()), Ok(1));
    let tiny_clusters = with(&|h| {
        h.cluster_bits = 9;
        h.size = qcow::MAX_QCOW_FILE_SIZE;
    });
    assert_eq!(open::l1_entries(&tiny_clusters), Err(Error::TooManyL1Entries(0x2000_0000)));
    assert_eq!(
        open::check_tables(&with(&|h| h.refcount_table_clusters = 100)),
        Err(Error::RefcountTableTooLarge)
    );
    assert_eq!(open::check_tables(&header()), Ok(2));
    assert_eq!(
        open::check_address_space(&with(&|h| h.l1_table_offset = u64::MAX)),
        Ok(())
    );
    assert_eq!(
        open::check_address_space(&with(&|h| {
            h.size = 0x4000_0000;
            h.l1_table_offset = u64::MAX;
        })),
        Err(Error::InvalidL1TableOffset)
    );
    assert_eq!(
        open::check_address_space(&with(&|h| h.refcount_table_offset = u64::MAX)),
        Err(Error::InvalidRefcountTableOffset)
    );
}

#[test]
fn counts_are_rebuilt_when_they_cannot_be_trusted() {
    let h = header();
    assert!(!open::rebuild_required(&h, 0x4_0000, 1));
    assert!(open::rebuild_required(&h, 0, 0));
    assert!(open::rebuild_required(&h, 0x4_0000, 0));
    let mut lazy = header();
    rebuild::set_lazy_refcounts(&mut lazy, true);
    assert!(open::rebuild_required(&lazy, 0x4_0000, 1));
    rebuild::set_lazy_refcounts(&mut lazy, false);
    assert!(!open::rebuild_required(&lazy, 0x4_0000, 1));
    let mut dirty = header();
    dirty.incompatible_features = qcow::INCOMPATIBLE_FEATURES_DIRTY;
    assert!(open::rebuild_required(&dirty, 0x4_0000, 1));
}

#[test]
fn a_rebuild_counts_every_reference() {
    let mut h = header();
    h.cluster_bits = 9;
    h.size = 0x1_0000;
    h.l1_size = 2;
    h.l1_table_offset = 512;
    h.refcount_table_offset = 1024;
    h.refcount_table_clusters = 1;
    let plan = rebuild::plan(&h, 512 * 20).unwrap();
    let mut counts = Rebuild::start(&h, plan).unwrap();
    let mut table = vec![0u64; 64];
    table[0] = 512 * 7;
    table[1] = 512 * 7;
    table[2] = 512 * 8;
    counts.add_table(512 * 6, &table).unwrap();
    counts.add_refcount_table(&h).unwrap();
    let mut want = vec![0u16; counts.counts.len()];
    for (i, n) in [(0, 1), (1, 1), (2, 1), (6, 1), (7, 2), (8, 1)] {
        want[i] = n;
    }
    assert_eq!(counts.counts, want);
    let table_entries = plan.table_entries as usize;
    let blocks = counts.alloc_refblocks(plan).unwrap();
    assert_eq!(blocks.len(), table_entries);
    assert_eq!(blocks[0], 512 * 3);
    assert!(blocks[1..].iter().all(|b| *b == 0));
    assert_eq!(counts.counts[3], 1);
    assert_eq!(counts.refblock(0, plan)[7], 2);
    assert_eq!(
        Rebuild::start(&h, plan).unwrap().add_table(u64::MAX - 511, &table),
        Err(Error::InvalidClusterIndex)
    );
    let mut many = Rebuild::start(&h, plan).unwrap();
    many.counts[6] = u16::MAX;
    assert_eq!(many.add_table(512 * 6, &table), Err(Error::RefcountOverflow));
    let mut full = Rebuild::start(&h, plan).unwrap();
    for c in full.counts.iter_mut() {
        *c = 1;
    }
    assert_eq!(full.alloc_refblocks(plan), Err(Error::NotEnoughSpaceForRefcounts));
    assert!(matches!(
        rebuild::plan(&h, 0x1000_0000),
        Err(Error::InvalidRefcountTableSize(_))
    ));
}

#[test]
fn an_interrupted_rebuild_leaves_the_mark() {
    let writes = rebuild::write_refblocks(&vec![0x4_0000, 0, 0x5_0000, 0]);
    assert!(matches!(writes[0], rebuild::Write::Header(true)));
    assert!(matches!(writes[1], rebuild::Write::Block(0)));
    assert!(matches!(writes[2], rebuild::Write::Block(2)));
    assert!(matches!(writes[3], rebuild::Write::Table));
    assert!(matches!(writes[4], rebuild::Write::Header(false)));
    assert_eq!(writes.len(), 5);
}

#[test]
fn unreferenced_clusters_are_found() {
    assert_eq!(open::zero_refcount_clusters(&vec![1, 0, 2, 0], 512), vec![512, 1536]);
    let free = open::find_avail_clusters(&vec![1, 0, 2, 0], 512);
    assert_eq!(free.len(), 2);
    assert!(free.contains(&512) && free.contains(&1536));
}

#[test]
fn sizes_are_rounded_up() {
    assert_eq!(geometry::div_ceil(0, 7), 0);
    assert_eq!(geometry::div_ceil(14, 7), 2);
    assert_eq!(geometry::div_ceil(15, 7), 3);
    assert_eq!(geometry::div_ceil(u64::MAX, 2), 1 << 63);
    assert_eq!(geometry::cluster_size(16), 0x1_0000);
    assert_eq!(geometry::max_refcount_clusters(4, 0x1_0000, 0x1_0000), 3);
    assert_eq!(geometry::offset_is_cluster_boundary(0x2_0000, 16), Ok(()));
    assert_eq!(geometry::offset_is_cluster_boundary(0x2_0001, 16), Err(Error::InvalidOffset(0x2_0001)));
}

#[test]
fn addresses_go_through_their_tables() {
    let g = Geometry { cluster_bits: 16, virtual_size: 0x4000_0000 };
    assert_eq!((g.cluster_size(), g.l2_entries()), (0x1_0000, 8192));
    assert_eq!(g.l1_table_index(0x2000_0000), 1);
    assert_eq!(g.l1_address_offset(0x2000_0000), 8);
    assert_eq!(g.l2_table_index(0x2003_0005), 3);
    assert_eq!(g.cluster_offset(0x2003_0005), 5);
    assert_eq!(g.limit_range_cluster(0x1_fff0, 100), 16);
    assert_eq!(g.limit_range_file(0x3fff_fff0, 100), 16);
    assert_eq!(g.limit_range_file(0x4000_0001, 100), 0);
    assert_eq!(g.limit_range_file(u64::MAX, 2), 0);
}

#[test]
fn a_compressed_entry_says_where_and_how_long() {
    // Offset bits 0..54, sectors minus one behind them.
    let entry = (1u64 << 62) | (2 << 54) | 0x1_fe10;
    assert_eq!(geometry::decode_compressed_descriptor(entry, 16), (0x1_fe10, 3 * 512 - 0x10));
    assert_eq!(geometry::compressed_host_clusters(entry, 16), vec![0x1_0000, 0x2_0000]);
}

fn mapping(has_backing: bool) -> Mapping {
    let g = Geometry { cluster_bits: 9, virtual_size: 0x2_0000 };
    Mapping::new(g, vec![0x1000, 0, 0, 0], has_backing)
}

#[test]
fn entries_are_decoded_before_they_are_kept() {
    let raw = vec![0x8000_0000_0000_0200, 0x201, 0x4000_0000_0000_0201, 0];
    let values = read_l2_cluster(&raw);
    assert_eq!(values, vec![0x200, 1, 0x4000_0000_0000_0201, 0]);
    assert_eq!(
        stored_entries(&values),
        vec![0x8000_0000_0000_0200, 1, 0x4000_0000_0000_0201, 0]
    );
}

#[test]
fn lookups_and_plans() {
    let mut m = mapping(true);
    assert_eq!(m.file_offset_read(0x2_0000), Lookup::Invalid);
    assert_eq!(m.file_offset_read(10), Lookup::NeedTable(0, 0x1000));
    assert_eq!(m.file_offset_read(0x8000), Lookup::Found(ClusterData::Unallocated));
    let mut raw = vec![0u64; 64];
    raw[0] = 0x8000_0000_0000_2000;
    raw[1] = 0x4000_0000_0000_3001;
    raw[2] = 1;
    m.load_table(0, &raw);
    assert_eq!(m.file_offset_read(10), Lookup::Found(ClusterData::Plain(0x200a)));
    assert_eq!(
        m.file_offset_read(0x200),
        Lookup::Found(ClusterData::Compressed(0x4000_0000_0000_3001))
    );
    assert_eq!(m.file_offset_read(0x400), Lookup::Found(ClusterData::Zero));
    assert_eq!(m.file_offset_write(10, 4), WritePlan::InPlace(0x200a));
    assert_eq!(
        m.file_offset_write(0x210, 4),
        WritePlan::DataThenTable(Fill::Decompress(0x4000_0000_0000_3001))
    );
    assert_eq!(m.file_offset_write(0x200, 512), WritePlan::DataThenTable(Fill::Zeroed));
    assert_eq!(m.file_offset_write(0x410, 4), WritePlan::DataThenTable(Fill::Zeroed));
    assert_eq!(m.file_offset_write(0x610, 4), WritePlan::DataThenTable(Fill::Backing(0x600)));
    assert_eq!(m.file_offset_write(0x8010, 4), WritePlan::TableThenData(Fill::Backing(0x8000)));
    assert_eq!(m.mark_cluster_zero(0x600), ZeroPlan::Table);

    let updated = m.update_cluster_addr(0x600, 0x4000, Some(0x5000));
    assert_eq!(updated.refcounts, vec![(0x1000, 0), (0x5000, 1)]);
    assert_eq!(updated.unref, vec![0x1000]);
    assert_eq!(m.l1_table[0], 0x5000);
    assert!(m.l1_dirty);
    assert_eq!(m.file_offset_read(0x601), Lookup::Found(ClusterData::Plain(0x4001)));
    assert_eq!(m.file_offset_read(10), Lookup::Found(ClusterData::Plain(0x200a)));
    assert_eq!(m.file_offset_write(0x810, 4), WritePlan::Data(Fill::Backing(0x800)));
    assert_eq!(m.mark_cluster_zero(0x600), ZeroPlan::Nothing);
    assert_eq!(m.next_dirty(), Some((0, 0x5000)));

    assert_eq!(m.deallocate_cluster(0x600), Dropped::Plain(0x4000));
    m.drop_plain(0x600);
    assert_eq!(m.deallocate_cluster(0x600), Dropped::Nothing);
    assert_eq!(m.deallocate_cluster(0x400), Dropped::Zero);
    assert_eq!(m.deallocate_cluster(0x200), Dropped::Compressed(0x4000_0000_0000_3001));
    assert_eq!(m.file_offset_read(0x200), Lookup::Found(ClusterData::Unallocated));
    m.mark_clean(0);
    assert_eq!(m.next_dirty(), None);
}

#[test]
fn requests_are_cut_at_clusters() {
    let mut m = mapping(false);
    let mut raw = vec![0u64; 64];
    raw[0] = 0x2000;
    m.load_table(0, &raw);
    assert_eq!(
        requests::read_cb(&m, 0x1f0, 0x100, 0),
        requests::ReadStep::Piece(0x10, ReadSource::Disk(0x21f0))
    );
    assert_eq!(
        requests::read_cb(&m, 0x1f0, 0x100, 0x10),
        requests::ReadStep::Piece(0xf0, ReadSource::Zero)
    );
    assert_eq!(requests::read_cb(&m, 0x1f0, 0x100, 0x100), requests::ReadStep::Done(0x100));
    assert_eq!(
        requests::read_cb(&mapping(true), 0x8000, 1, 0),
        requests::ReadStep::Piece(1, ReadSource::Backing(0x8000))
    );
    assert_eq!(
        requests::write_cb(&m, 0x200, 0x200, false, 0),
        WriteStep::Piece(0x200, 0x200, 0)
    );
    assert_eq!(requests::write_cb(&m, 0x204, 0x200, true, 0), WriteStep::Piece(0x1fc, 0x204, 0x1fc));
    assert_eq!(requests::zero_bytes(&m, 0, 0x200, 0), ZeroStep::Deallocate(0, 0x200));
    assert_eq!(requests::zero_bytes(&m, 4, 4, 0), ZeroStep::ZeroAt(0x2004, 4));
    assert_eq!(requests::zero_bytes(&m, 0x204, 4, 0), ZeroStep::Skip(4));
    assert_eq!(requests::zero_bytes(&mapping(true), 0, 0x200, 0), ZeroStep::MarkZero(0, 0x200));
    assert_eq!(requests::zero_bytes(&mapping(true), 4, 4, 0), ZeroStep::Allocate(4, 4));
    assert_eq!(requests::punch_chunk(7), 7);
}

#[test]
fn positions_stay_in_the_image() {
    assert_eq!(requests::seek(SeekFrom::Start(10), 10, 0), Some(10));
    assert_eq!(requests::seek(SeekFrom::Start(11), 10, 0), None);
    assert_eq!(requests::seek(SeekFrom::End(-4), 10, 0), Some(6));
    assert_eq!(requests::seek(SeekFrom::Current(-4), 10, 3), None);
    assert_eq!(requests::seek(SeekFrom::Current(i64::MIN), 10, 3), None);
}

#[test]
fn the_cache_keeps_what_was_used_last() {
    assert_eq!(decompressed_cache_capacity(0x1_0000), 32);
    let mut c = ClusterCache::new(0x10_0000);
    assert_eq!(c.capacity, 2);
    c.insert_decompressed_cluster(1, vec![1]);
    c.insert_decompressed_cluster(2, vec![2]);
    assert!(c.ensure_decompressed_cluster(1));
    assert_eq!(c.front(), Some(&vec![1]));
    c.insert_decompressed_cluster(3, vec![3]);
    assert!(c.contains(1) && c.contains(3) && !c.contains(2));
    assert!(!c.ensure_decompressed_cluster(2));
    c.forget(1);
    assert!(!c.contains(1));
}

#[test]
fn a_moved_block_frees_its_old_cluster() {
    let (mut work, step) = Assignments::start(0x9000, 1);
    assert_eq!(step, Step::Store(0x9000, 1));
    assert_eq!(work.outcome(Outcome::NeedBlock(0x3000)), Step::ReadBlock(0x3000));
    assert_eq!(work.outcome(Outcome::NeedNewBlock), Step::FindBlock);
    assert_eq!(work.block_found(0xa000), Step::StoreWithBlock(0x9000, 1, 0xa000));
    let mut stores = Vec::new();
    let mut step = work.outcome(Outcome::StoredAndMoved(0x3000));
    while let Step::Store(at, n) = step {
        stores.push((at, n));
        step = work.outcome(Outcome::Stored);
    }
    assert_eq!(step, Step::Done);
    stores.sort();
    assert_eq!(stores, vec![(0x3000, 0), (0xa000, 1)]);
    assert_eq!(work.dropped, vec![0x3000]);
}

#[test]
fn counts_are_kept_in_blocks() {
    assert!(RefCounts::new(vec![], 256, 512).is_none());
    assert!(RefCounts::new(vec![0; 4], 1 << 40, 1 << 40).is_none());
    let mut c = RefCounts::new(vec![0x600, 0], 256, 512).unwrap();
    assert_eq!(c.max_valid_cluster_offset(), 511 * 512);
    assert_eq!(c.get_cluster_refcount(512), Counted::NeedBlock(0, 0x600));
    assert_eq!(c.get_cluster_refcount(300 * 512), Counted::Count(0));
    assert_eq!(c.get_cluster_refcount(512 * 512), Counted::Invalid);
    assert_eq!(c.set_cluster_refcount(512, 1, None), Some(Outcome::NeedBlock(0x600)));
    let mut block = vec![0u16; 256];
    block[1] = 7;
    c.load_block(0, block);
    assert_eq!(c.get_cluster_refcount(512), Counted::Count(7));
    assert_eq!(c.set_cluster_refcount(512, 1, None), Some(Outcome::NeedNewBlock));
    assert_eq!(c.next_dirty(0), None);
    assert_eq!(
        c.set_cluster_refcount(512, 1, Some(0x800)),
        Some(Outcome::StoredAndMoved(0x600))
    );
    assert_eq!(c.get_cluster_refcount(512), Counted::Count(1));
    assert_eq!(c.set_cluster_refcount(1024, 2, None), Some(Outcome::Stored));
    assert_eq!(c.get_cluster_refcount(512), Counted::Count(1));
    assert_eq!(c.set_cluster_refcount(300 * 512, 1, None), Some(Outcome::NeedNewBlock));
    assert_eq!(c.set_cluster_refcount(300 * 512, 1, Some(0xa00)), Some(Outcome::Stored));
    assert_eq!(c.set_cluster_refcount(512 * 512, 1, Some(0xc00)), None);
    assert_eq!(c.table, vec![0x800, 0xa00]);
    assert!(c.table_dirty);
    assert_eq!(c.next_dirty(0), Some((0, 0x800)));
    assert_eq!(c.block_counts(0).unwrap()[2], 2);
    c.mark_clean(0);
    assert_eq!(c.next_dirty(0), Some((1, 0xa00)));
    c.table_written();
    assert!(!c.table_dirty);
    assert_eq!(cluster_at_end(1000, 512, 1024), Some(1024));
    assert_eq!(cluster_at_end(1024, 512, 1024), Some(1024));
    assert_eq!(cluster_at_end(1025, 512, 1024), None);
}

#[test]
fn clusters_are_released_by_their_count() {
    assert_eq!(release(0), Release::Unreferenced);
    assert_eq!(release(1), Release::Freed);
    assert_eq!(release(3), Release::Shared(2));
    let mut p = Pools::new(vec![0x100, 0x200]);
    assert!(p.get_new_cluster().is_some());
    p.unref(0x300);
    p.unref_all(&vec![0x400]);
    assert_eq!(p.unref_compressed_cluster(0x500, 2), Some(1));
    assert_eq!(p.unref_compressed_cluster(0x500, 1), Some(0));
    assert_eq!(p.unref_compressed_cluster(0x600, 0), None);
    assert_eq!(p.take_punched(), vec![0x500]);
    assert_eq!(p.avail_clusters.len(), 1);
    p.synced();
    assert!(p.unref_clusters.is_empty());
    assert_eq!(p.avail_clusters.len(), 4);
}

#[test]
fn tables_that_point_are_written_after_what_they_point_at() {
    let mut m = mapping(false);
    m.update_cluster_addr(0x8000, 0x4000, Some(0x5000));
    let mut refs = RefCounts::new(vec![0x600], 256, 0x200).unwrap();
    assert!(refs.take_block(0, vec![1; 256]));
    assert_eq!(refs.set_cluster_refcount(0x200, 2, Some(0x800)), Some(Outcome::StoredAndMoved(0x600)));
    let mut order = Vec::new();
    let mut p = Progress::Tables;
    while let Some((action, next)) = sync_caches(&m, &refs, p) {
        order.push(action);
        p = next;
        performed(&mut m, &mut refs, action);
    }
    assert_eq!(
        order,
        vec![
            Action::WriteTable(1, 0x5000),
            Action::WriteBlock(0, 0x800),
            Action::SyncAll,
            Action::WriteL1,
            Action::WriteRefcountTable,
            Action::SyncData,
            Action::Punch,
        ]
    );
    assert!(!m.l1_dirty && !refs.table_dirty);
    let again = sync_caches(&m, &refs, Progress::Tables);
    assert_eq!(again, Some((Action::SyncAll, Progress::Synced)));
    let last = sync_caches(&m, &refs, Progress::Synced);
    assert_eq!(last, Some((Action::Punch, Progress::Done)));
}

#[test]
fn tables_are_read_as_they_were_written() {
    let table = [1u64, 0x8000_0000_0000_2000, u64::MAX];
    let raw = tables::pointer_table_bytes(&table);
    assert_eq!(raw[..9], [0, 0, 0, 0, 0, 0, 0, 1, 0x80]);
    assert_eq!(tables::read_pointer_table(&raw), table);
    assert_eq!(tables::read_pointer_table(&raw[..17]), table[..2]);
    let counts = [0u16, 1, 0xfffe];
    let raw = tables::refcount_block_bytes(&counts);
    assert_eq!(raw, [0, 0, 0, 1, 0xff, 0xfe]);
    assert_eq!(tables::read_refcount_block(&raw), counts);
    assert_eq!(bytes::get_be16(&[1, 2, 3], 1), 0x203);
}

fn layout(has_backing: bool) -> Layout {
    Layout {
        mapping: mapping(has_backing),
        pools: Pools::new(vec![0x9000]),
        cached: ClusterCache::new(0x200),
    }
}

#[test]
fn a_write_finds_its_place_step_by_step() {
    let mut l = layout(true);
    // Nothing is stored yet, and there is no table either.
    let mut w = Placing::start(0x8010, 4);
    assert_eq!(w.file_offset_write(&mut l, Given::Done), Turn::Need(Need::Room));
    assert_eq!(
        w.file_offset_write(&mut l, Given::Done),
        Turn::Need(Need::Cluster(Fill::Zeroed))
    );
    assert_eq!(
        w.file_offset_write(&mut l, Given::Cluster(0x5000)),
        Turn::Need(Need::Cluster(Fill::Backing(0x8000)))
    );
    assert_eq!(
        w.file_offset_write(&mut l, Given::Cluster(0x6000)),
        Turn::Need(Need::SetCount(0x6000, 1))
    );
    assert_eq!(l.mapping.file_offset_read(0x8010), Lookup::Found(ClusterData::Unallocated));
    assert_eq!(
        w.file_offset_write(&mut l, Given::Done),
        Turn::Need(Need::SetCount(0x5000, 1))
    );
    assert_eq!(w.file_offset_write(&mut l, Given::Done), Turn::Done(0x6010));
    assert_eq!(l.mapping.file_offset_read(0x8010), Lookup::Found(ClusterData::Plain(0x6010)));
    // Now it is.
    assert_eq!(Placing::start(0x8020, 4).file_offset_write(&mut l, Given::Done), Turn::Done(0x6020));
    assert_eq!(
        Placing::start(u64::MAX, 4).file_offset_write(&mut l, Given::Done),
        Turn::Failed
    );

    // A compressed cluster in a table that is as in the file.
    let entry = 0x4000_0000_0000_3001;
    let mut first = Placing::start(0x210, 4);
    assert_eq!(first.file_offset_write(&mut l, Given::Done), Turn::Need(Need::Table(0, 0x1000)));
    let mut raw = vec![0u64; 64];
    raw[1] = entry;
    assert!(l.mapping.take_table(0, &raw));
    assert!(!l.mapping.take_table(0, &raw));
    l.cached.insert_decompressed_cluster(entry, vec![7; 0x200]);
    assert_eq!(
        first.file_offset_write(&mut l, Given::Done),
        Turn::Need(Need::Cluster(Fill::Decompress(entry)))
    );
    assert_eq!(
        first.file_offset_write(&mut l, Given::Cluster(0x7000)),
        Turn::Need(Need::SetCount(0x7000, 1))
    );
    assert_eq!(
        first.file_offset_write(&mut l, Given::Done),
        Turn::Need(Need::Cluster(Fill::Zeroed))
    );
    assert_eq!(
        first.file_offset_write(&mut l, Given::Cluster(0x7200)),
        Turn::Need(Need::Release(entry))
    );
    assert!(!l.cached.contains(entry));
    assert_eq!(l.pools.unref_clusters, vec![0x1000]);
    assert_eq!(
        first.file_offset_write(&mut l, Given::Done),
        Turn::Need(Need::SetCount(0x1000, 0))
    );
    assert_eq!(
        first.file_offset_write(&mut l, Given::Done),
        Turn::Need(Need::SetCount(0x7200, 1))
    );
    assert_eq!(first.file_offset_write(&mut l, Given::Done), Turn::Done(0x7010));
    assert_eq!(l.mapping.l1_table[0], 0x7200);

    // A cluster that no entry can point at, and an answer to another question.
    let mut odd = Placing::start(0x400, 4);
    odd.file_offset_write(&mut l, Given::Done);
    assert_eq!(odd.file_offset_write(&mut l, Given::Count(1)), Turn::Failed);
    assert_eq!(
        odd.file_offset_write(&mut l, Given::Cluster(0x7401)),
        Turn::Need(Need::SetCount(0x7401, 1))
    );
    assert_eq!(odd.file_offset_write(&mut l, Given::Done), Turn::Failed);
}

#[test]
fn storage_is_given_up_step_by_step() {
    let mut l = layout(false);
    let entry = 0x4000_0000_0000_3001;
    let mut raw = vec![0u64; 64];
    raw[0] = 0x2000;
    raw[1] = entry;
    raw[2] = 0x2400;
    raw[3] = 1;
    assert!(l.mapping.take_table(0, &raw));
    let mut d = Dropping::start(0x10);
    assert_eq!(d.deallocate_cluster(&mut l, Given::Done), Turn::Need(Need::Count(0x2000)));
    assert_eq!(
        d.deallocate_cluster(&mut l, Given::Count(1)),
        Turn::Need(Need::SetCount(0x2000, 0))
    );
    assert!(l.mapping.is_stored_at(0x10, 0x2000));
    assert_eq!(d.deallocate_cluster(&mut l, Given::Done), Turn::Need(Need::Punch(0x2000)));
    assert!(!l.mapping.is_stored_at(0x10, 0x2000));
    assert!(l.pools.unref_clusters.is_empty());
    assert_eq!(d.deallocate_cluster(&mut l, Given::Done), Turn::Done(0));
    assert_eq!(l.pools.unref_clusters, vec![0x2000]);

    let mut shared = Dropping::start(0x400);
    shared.deallocate_cluster(&mut l, Given::Done);
    assert_eq!(shared.deallocate_cluster(&mut l, Given::Count(0)), Turn::Failed);
    assert_eq!(
        shared.deallocate_cluster(&mut l, Given::Count(3)),
        Turn::Need(Need::SetCount(0x2400, 2))
    );
    assert_eq!(shared.deallocate_cluster(&mut l, Given::Done), Turn::Done(0));
    assert_eq!(l.pools.unref_clusters, vec![0x2000]);

    let mut packed = Dropping::start(0x200);
    assert_eq!(packed.deallocate_cluster(&mut l, Given::Done), Turn::Need(Need::Release(entry)));
    assert_eq!(packed.deallocate_cluster(&mut l, Given::Done), Turn::Done(0));
    assert_eq!(Dropping::start(0x600).deallocate_cluster(&mut l, Given::Done), Turn::Done(0));
    assert_eq!(l.mapping.file_offset_read(0x600), Lookup::Found(ClusterData::Unallocated));

    // The table was changed, so that it can be changed again.
    let mut z = Zeroing::start(0x600);
    assert_eq!(z.mark_cluster_zero(&mut l, Given::Done), Turn::Go);
    assert_eq!(z.mark_cluster_zero(&mut l, Given::Done), Turn::Done(0));
    assert_eq!(l.mapping.file_offset_read(0x600), Lookup::Found(ClusterData::Zero));
    // Here there is none.
    let mut z = Zeroing::start(0x8000);
    assert_eq!(z.mark_cluster_zero(&mut l, Given::Done), Turn::Go);
    assert_eq!(z.mark_cluster_zero(&mut l, Given::Done), Turn::Need(Need::Room));
    assert_eq!(z.mark_cluster_zero(&mut l, Given::Done), Turn::Need(Need::Cluster(Fill::Zeroed)));
    assert_eq!(
        z.mark_cluster_zero(&mut l, Given::Cluster(0x7600)),
        Turn::Need(Need::SetCount(0x7600, 1))
    );
    assert_eq!(z.mark_cluster_zero(&mut l, Given::Done), Turn::Done(0));
    assert_eq!(l.mapping.file_offset_read(0x8000), Lookup::Found(ClusterData::Zero));

    let hosts = [0x3000, 0x3200];
    let mut r = Releasing::start(0x6000_0000_0000_3001, 9);
    assert_eq!(
        r.unref_compressed_cluster(&mut l.pools, Given::Done),
        Turn::Need(Need::Count(hosts[0]))
    );
    assert_eq!(r.unref_compressed_cluster(&mut l.pools, Given::Done), Turn::Failed);
    assert_eq!(
        r.unref_compressed_cluster(&mut l.pools, Given::Count(1)),
        Turn::Need(Need::SetCount(hosts[0], 0))
    );
    assert_eq!(l.pools.punch_clusters, vec![hosts[0]]);
    assert_eq!(
        r.unref_compressed_cluster(&mut l.pools, Given::Done),
        Turn::Need(Need::Count(hosts[1]))
    );
    assert_eq!(r.unref_compressed_cluster(&mut l.pools, Given::Count(0)), Turn::Go);
    assert_eq!(r.unref_compressed_cluster(&mut l.pools, Given::Done), Turn::Done(0));
}

#[test]
fn counts_are_set_step_by_step() {
    let mut refs = RefCounts::new(vec![0x600, 0], 4, 0x200).unwrap();
    let mut pools = Pools::new(Vec::new());
    let mut c = Counting::start(0x200, 1);
    assert_eq!(
        c.set_cluster_refcount(&mut refs, &mut pools, Given::Done),
        Turn::Need(Need::Block(0, 0x600))
    );
    assert!(!refs.take_block(0, vec![1; 3]));
    assert!(!refs.take_block(2, vec![1; 4]));
    assert!(refs.take_block(0, vec![1, 0, 0, 1]));
    assert_eq!(
        c.set_cluster_refcount(&mut refs, &mut pools, Given::Done),
        Turn::Need(Need::Cluster(Fill::Zeroed))
    );
    assert_eq!(
        c.set_cluster_refcount(&mut refs, &mut pools, Given::Cluster(0x400)),
        Turn::Go
    );
    while c.set_cluster_refcount(&mut refs, &mut pools, Given::Done) == Turn::Go {}
    assert_eq!(refs.table, vec![0x400, 0]);
    let known: Vec<Counted> =
        (0..4).map(|i| refs.get_cluster_refcount(i * 0x200)).collect();
    assert_eq!(
        known,
        vec![Counted::Count(1), Counted::Count(1), Counted::Count(1), Counted::Count(0)]
    );
    assert_eq!(pools.unref_clusters, vec![0x600]);
    let mut behind = Counting::start(0x2000, 1);
    assert_eq!(behind.set_cluster_refcount(&mut refs, &mut pools, Given::Done), Turn::Failed);

    assert_eq!(refs.block_index(0x600), Some(0));
    assert_eq!(refs.block_index(0x1000), None);
    assert_eq!(refs.add_cluster_end(0x601), Some((0x800, 0xa00)));
    assert_eq!(refs.add_cluster_end(0xe01), None);

    let mut s = Survey::start(0x701, 0x200);
    assert_eq!(s.survey(&refs), Turn::Done(0));
    assert_eq!(s.counts, vec![1, 1, 1, 0]);
    assert_eq!(s.avail_clusters(), vec![0x600]);
    let unread = RefCounts::new(vec![0x600], 4, 0x200).unwrap();
    assert_eq!(Survey::start(0x200, 0x200).survey(&unread), Turn::Need(Need::Block(0, 0x600)));
    assert_eq!(Survey::start(0, 0x200).survey(&unread), Turn::Done(0));
}

#[test]
fn an_image_is_opened_step_by_step() {
    let h = header();
    let mut o = Opening::start(h.clone(), false);
    assert_eq!(o.step(OpenGiven::Done), OpenTurn::Need(OpenNeed::FileSize));
    assert_eq!(o.step(OpenGiven::Done), OpenTurn::Unexpected);
    assert_eq!(
        o.step(OpenGiven::Size(0x10_0000)),
        OpenTurn::Need(OpenNeed::Entry(h.refcount_table_offset))
    );
    assert_eq!(o.step(OpenGiven::Entry(0x3_0000)), OpenTurn::Need(OpenNeed::Count(0x3_0000)));
    assert_eq!(
        o.step(OpenGiven::Count(1)),
        OpenTurn::Need(OpenNeed::Table(h.l1_table_offset, 1))
    );
    assert_eq!(o.step(OpenGiven::Table(vec![])), OpenTurn::Unexpected);
    assert_eq!(
        o.step(OpenGiven::Table(vec![0x8000_0000_0004_0000])),
        OpenTurn::Need(OpenNeed::Table(h.refcount_table_offset, 2))
    );
    assert_eq!(o.step(OpenGiven::Table(vec![0x3_0000, 0])), OpenTurn::Opened);
    let (mapping, refs) = o.opened.unwrap();
    assert_eq!(mapping.l1_table, vec![0x4_0000]);
    assert_eq!(refs.table, vec![0x3_0000, 0]);
    assert!(!mapping.has_backing);

    // Without counts they are rebuilt, and so they are where the header says that they lag behind.
    let mut o = Opening::start(h.clone(), false);
    o.step(OpenGiven::Done);
    o.step(OpenGiven::Size(0x10_0000));
    assert_eq!(o.step(OpenGiven::Entry(0)), OpenTurn::Need(OpenNeed::Rebuild));
    assert_eq!(
        o.step(OpenGiven::Done),
        OpenTurn::Need(OpenNeed::Table(h.l1_table_offset, 1))
    );
    let on_top = QcowHeader::create_for_size_and_path(0x1000_0000, Some("below")).unwrap();
    let mut o = Opening::start(on_top, true);
    assert_eq!(o.step(OpenGiven::Done), OpenTurn::Need(OpenNeed::Backing));
    assert_eq!(o.step(OpenGiven::Done), OpenTurn::Need(OpenNeed::FileSize));
    let mut old = h.clone();
    old.version = 2;
    assert_eq!(
        Opening::start(old, false).step(OpenGiven::Done),
        OpenTurn::Refused(Error::UnsupportedVersion(2))
    );
    let mut taken = h;
    taken.nb_snapshots = 1;
    let mut o = Opening::start(taken, false);
    o.step(OpenGiven::Done);
    assert_eq!(o.step(OpenGiven::Size(9)), OpenTurn::Refused(Error::SnapshotsUnsupported));
}

#[test]
fn counts_are_rebuilt_step_by_step() {
    let h = header();
    let mut b = Rebuilding::start(h.clone());
    assert_eq!(b.rebuild_refcounts(OpenGiven::Done), RebuildTurn::Unexpected);
    assert_eq!(
        b.rebuild_refcounts(OpenGiven::Size(0x10_0000)),
        RebuildTurn::Need(RebuildNeed::Table(h.l1_table_offset, 1))
    );
    assert_eq!(
        b.rebuild_refcounts(OpenGiven::Table(vec![0x8000_0000_0004_0000])),
        RebuildTurn::Need(RebuildNeed::Table(0x4_0000, 0x2000))
    );
    let mut table = vec![0u64; 0x2000];
    table[3] = 0x8000_0000_0005_0000;
    table[9] = 0x8000_0000_0005_0000;
    assert_eq!(
        b.rebuild_refcounts(OpenGiven::Table(table)),
        RebuildTurn::Need(RebuildNeed::WriteHeader)
    );
    assert_eq!(b.header.compatible_features & 1, 1);
    assert_eq!(
        b.rebuild_refcounts(OpenGiven::Done),
        RebuildTurn::Need(RebuildNeed::WriteBlock(0x3_0000, 0))
    );
    let block = b.block(0);
    assert_eq!(block.len(), 0x8000);
    assert_eq!(block[..7], [1, 1, 1, 1, 1, 2, 0]);
    assert_eq!(
        b.rebuild_refcounts(OpenGiven::Done),
        RebuildTurn::Need(RebuildNeed::WriteTable(h.refcount_table_offset))
    );
    assert_eq!(b.table, vec![0x3_0000, 0]);
    assert_eq!(
        b.rebuild_refcounts(OpenGiven::Done),
        RebuildTurn::Need(RebuildNeed::WriteHeader)
    );
    assert_eq!(b.header.compatible_features & 1, 0);
    assert_eq!(b.rebuild_refcounts(OpenGiven::Done), RebuildTurn::Rebuilt);
    assert_eq!(b.rebuild_refcounts(OpenGiven::Done), RebuildTurn::Rebuilt);

    // A disk of two gibibytes has more clusters than one block holds counts.
    let h = QcowHeader::create_for_size_and_path(0x8000_0000, None).unwrap();
    let mut b = Rebuilding::start(h.clone());
    b.rebuild_refcounts(OpenGiven::Size(0x3_0000));
    let mut l1 = vec![0u64; 4];
    l1[2] = 0x3_0000;
    b.rebuild_refcounts(OpenGiven::Table(l1));
    let mut table = vec![0u64; 0x2000];
    table[1] = (1 << 63) | (0x8005 << 16);
    assert_eq!(
        b.rebuild_refcounts(OpenGiven::Table(table)),
        RebuildTurn::Need(RebuildNeed::WriteHeader)
    );
    assert_eq!(b.table, vec![0x4_0000, 0x5_0000, 0]);
    assert_eq!(b.block(0)[..7], [1, 1, 1, 1, 1, 1, 0]);
    assert_eq!(b.block(1)[..7], [0, 0, 0, 0, 0, 1, 0]);

    let h = header();
    let mut outside = Rebuilding::start(h);
    outside.rebuild_refcounts(OpenGiven::Size(0x10_0000));
    outside.rebuild_refcounts(OpenGiven::Table(vec![0x4_0000]));
    assert_eq!(
        outside.rebuild_refcounts(OpenGiven::Table(vec![0xff_ffff_ffff_0000; 0x2000])),
        RebuildTurn::Refused(Error::InvalidClusterIndex)
    );
}

/// The header of an image with small clusters, whose refcount table has one.
fn small_clusters() -> QcowHeader {
    let mut h = header();
    h.cluster_bits = 9;
    h.size = 64 << 20;
    h.l1_size = 64;
    h.l1_table_offset = 0x600;
    h.refcount_table_offset = 0x200;
    h.refcount_table_clusters = 1;
    h
}

#[test]
fn a_rebuilt_table_stays_within_its_clusters() {
    let h = small_clusters();
    let mut b = Rebuilding::start(h.clone());
    assert_eq!(
        b.rebuild_refcounts(OpenGiven::Size(2048)),
        RebuildTurn::Need(RebuildNeed::Table(0x600, 64))
    );
    assert_eq!(
        b.rebuild_refcounts(OpenGiven::Table(vec![0; 64])),
        RebuildTurn::Need(RebuildNeed::WriteHeader)
    );
    // The L1 table is behind the only cluster that is free.
    assert_eq!(b.table.len(), 64);
    assert_eq!(b.table[0], 0x400);
    assert!(b.table[1..].iter().all(|at| *at == 0));
    assert_eq!(
        b.rebuild_refcounts(OpenGiven::Done),
        RebuildTurn::Need(RebuildNeed::WriteBlock(0x400, 0))
    );
    assert_eq!(b.block(0)[..5], [1, 1, 1, 1, 0]);
    assert_eq!(
        b.rebuild_refcounts(OpenGiven::Done),
        RebuildTurn::Need(RebuildNeed::WriteTable(0x200))
    );
    assert_eq!(
        b.rebuild_refcounts(OpenGiven::Done),
        RebuildTurn::Need(RebuildNeed::WriteHeader)
    );
    assert_eq!(b.rebuild_refcounts(OpenGiven::Done), RebuildTurn::Rebuilt);
}

#[test]
fn a_rebuild_refuses_what_its_table_cannot_point_at() {
    let h = small_clusters();
    let mut b = Rebuilding::start(h);
    b.rebuild_refcounts(OpenGiven::Size(2048));
    let mut l1 = vec![0u64; 64];
    // The counts of that cluster would be in the block after the last that the table has.
    l1[5] = 512 * 256 * 64;
    b.rebuild_refcounts(OpenGiven::Table(l1));
    assert_eq!(
        b.rebuild_refcounts(OpenGiven::Table(vec![0; 64])),
        RebuildTurn::Refused(Error::NotEnoughSpaceForRefcounts)
    );
}

#[test]
fn clusters_are_decompressed() {
    // A stored block of three bytes.
    let raw = [1u8, 3, 0, 0xfc, 0xff, b'a', b'b', b'c'];
    let mut out = [9u8; 5];
    assert_eq!(decompress_cluster_into(0, &raw, &mut out), Decompressed::Done);
    assert_eq!(&out, b"abc\x09\x09");
    let mut short = [0u8; 2];
    assert_eq!(decompress_cluster_into(0, &raw, &mut short), Decompressed::Done);
    assert_eq!(&short, b"ab");
    let mut same = [9u8; 5];
    assert_eq!(decompress_cluster_into(0, &raw[..6], &mut same), Decompressed::Failed);
    assert_eq!(decompress_cluster_into(1, &raw, &mut same), Decompressed::NeedZstd);
    assert_eq!(same, [9; 5]);
    decompress_zstd_cluster(b"xyz", &mut same);
    assert_eq!(&same, b"xyz\x09\x09");
}

#[test]
fn filling_a_buffer_goes_on_until_it_is_full_or_the_data_ends() {
    assert_eq!(read_fill(0, 10, Fetched::Bytes(4)), Filling::From(4));
    assert_eq!(read_fill(4, 10, Fetched::Interrupted), Filling::From(4));
    assert_eq!(read_fill(4, 10, Fetched::Bytes(6)), Filling::Ended(10));
    assert_eq!(read_fill(4, 10, Fetched::Bytes(0)), Filling::Ended(4));
    assert_eq!(read_fill(4, 10, Fetched::Failed), Filling::Failed);
}

#[test]
fn one_frame_is_read_and_nothing_behind_it() {
    let mut r = FrameReader::with_buffer(100, true);
    assert_eq!(r.read(0), ReadStep::Return(0));
    assert_eq!(r.read(50), ReadStep::Decode(0));
    assert_eq!(r.decoded(10, 0, false), ReadStep::Decode(10));
    assert_eq!(r.decoded(20, 5, true), ReadStep::Return(5));
    assert_eq!(r.read(50), ReadStep::Return(0));
    let mut all = FrameReader::with_buffer(40, false);
    assert_eq!(all.decoded(20, 5, true), ReadStep::Return(5));
    assert_eq!(all.read(50), ReadStep::Decode(20));
    assert_eq!(all.decoded(20, 0, false), ReadStep::Return(0));
}

#[test]
fn jobs_are_split_over_threads() {
    assert_eq!(decode_chunk(0, 8), None);
    assert_eq!(decode_chunk(1, 8), None);
    assert_eq!(decode_chunk(37, 4), Some(10));
    assert_eq!(decode_chunk(3, 100), Some(1));
    assert_eq!(decode_chunk(100, 100), Some(13));
    assert_eq!(decode_chunk(5, 0), Some(5));
}
