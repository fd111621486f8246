//! The qcow2 disk image format.
//!
//! Reading and writing the file is outside. The modules here say what the bytes of a header mean,
//! whether an image can be opened, where a guest address is stored, what changes when it is
//! written or zeroed, and which of the tables have to go to the file in which order.

use vstd::prelude::*;

pub mod books;
pub mod cache;
pub mod contents;
pub mod counts;
pub mod decompress;
pub mod geometry;
pub mod header;
pub mod map;
pub mod open;
pub mod opening;
pub mod place;
pub mod rebuild;
pub mod rebuilding;
pub mod rebuilt;
pub mod recount;
pub mod refblocks;
pub mod refcount;
pub mod requests;
pub mod sync;
pub mod tables;
pub mod transfers;
pub mod uses;
pub mod zeroing;

verus! {

/// Why an image, or an operation on its tables, is refused.
#[derive(Debug, Clone, Copy, PartialEq, Eq, Structural)]
pub enum Error {
    /// The backing file's name is too long, by so many bytes.
    BackingFileTooLong(usize),
    FileTooBig(u64),
    InvalidBackingFileName,
    InvalidClusterIndex,
    InvalidClusterSize,
    InvalidIndex,
    InvalidL1TableOffset,
    InvalidL1TableSize(u32),
    InvalidMagic,
    InvalidOffset(u64),
    InvalidRefcountTableOffset,
    InvalidRefcountTableSize(u64),
    NoRefcountClusters,
    NotEnoughSpaceForRefcounts,
    /// The file ends before the header does.
    ReadingHeader,
    /// A cluster is referenced more often than a count can say.
    RefcountOverflow,
    RefcountTableOffEnd,
    RefcountTableTooLarge,
    SnapshotsUnsupported,
    TooManyL1Entries(u64),
    TooManyRefcounts(u64),
    UnsupportedCompressionFeatureMismatch { compression_type: u8, incompatible_features: u64 },
    UnsupportedCompressionType(u8),
    UnsupportedIncompatibleFeatures(u64),
    UnsupportedRefcountOrder,
    UnsupportedVersion(u32),
}

/// Maximum data size supported: 16 TiB.
pub const MAX_QCOW_FILE_SIZE: u64 = 0x1000_0000_0000;

/// The number that starts the header.
pub const QCOW_MAGIC: u32 = 0x5146_49fb;

pub const DEFAULT_CLUSTER_BITS: u32 = 16;

/// Size of a cluster of [`DEFAULT_CLUSTER_BITS`].
pub const DEFAULT_CLUSTER_SIZE: u32 = 0x1_0000;

pub const MIN_CLUSTER_BITS: u32 = 9;

pub const MAX_CLUSTER_BITS: u32 = 21;

/// The L1 and refcount tables are kept in memory, so they are limited.
pub const MAX_RAM_POINTER_TABLE_SIZE: u64 = 35_000_000;

/// Counts are two bytes each: two to this power bits.
pub const DEFAULT_REFCOUNT_ORDER: u32 = 4;

pub const V3_BARE_HEADER_SIZE: u32 = 104;

/// Size of a header extension area that holds none.
pub const QCOW_EMPTY_HEADER_EXTENSION_SIZE: u32 = 8;

pub const MAX_BACKING_FILE_SIZE: u32 = 1023;

/// Bits 0 to 8 and 56 to 63 of a table entry are reserved.
pub const TABLE_OFFSET_MASK: u64 = 0x00ff_ffff_ffff_fe00;

pub const COMPRESSED_FLAG: u64 = 0x4000_0000_0000_0000;

pub const CLUSTER_USED_FLAG: u64 = 0x8000_0000_0000_0000;

/// The cluster reads as zeroes, whatever a backing file holds there, and has no storage. In a
/// table that is held in memory, such a cluster is exactly this number.
pub const ZERO_FLAG: u64 = 1;

pub const COMPATIBLE_FEATURES_LAZY_REFCOUNTS: u64 = 1;

/// The counts were left in an unknown state; they are rebuilt.
pub const INCOMPATIBLE_FEATURES_DIRTY: u64 = 1;

/// A compression type other than the default is in use.
pub const INCOMPATIBLE_FEATURES_COMPRESSION: u64 = 8;

/// The dirty and the compression bit. Any other makes the image unreadable.
pub const SUPPORTED_INCOMPATIBLE_FEATURES: u64 = 9;

pub const QCOW_COMPRESSED_SECTOR_SIZE: u64 = 512;

/// A raw DEFLATE stream.
pub const QCOW_COMPRESSION_TYPE_ZLIB: u8 = 0;

pub const QCOW_COMPRESSION_TYPE_ZSTD: u8 = 1;

/// Upper bound on the memory of the cache of decompressed clusters.
pub const DECOMPRESSED_CLUSTER_CACHE_BYTES: u64 = 0x20_0000;

/// Upper bound on the threads that decompress the clusters of one request.
pub const MAX_DECODE_THREADS: usize = 8;

/// Clusters that the header takes: it is smaller than the smallest cluster.
pub const HEADER_CLUSTERS: u64 = 1;

/// Largest offset that a file can be positioned at.
pub const MAX_SEEK: u64 = 0x7fff_ffff_ffff_ffff;

} // verus!
