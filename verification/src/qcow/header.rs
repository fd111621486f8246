//! The header of an image, and its bytes.

use vstd::prelude::*;
use vstd::string::*;
use vstd::utf8::*;

use crate::bytes;
use crate::qcow;
use crate::qcow::geometry;
use crate::qcow::Error;

verus! {

/// Contains the information from the header of a qcow file.
#[derive(Debug)]
pub struct QcowHeader {
    pub magic: u32,
    pub version: u32,
    pub backing_file_offset: u64,
    pub backing_file_size: u32,
    pub cluster_bits: u32,
    pub size: u64,
    pub crypt_method: u32,
    pub l1_size: u32,
    pub l1_table_offset: u64,
    pub refcount_table_offset: u64,
    pub refcount_table_clusters: u32,
    pub nb_snapshots: u32,
    pub snapshots_offset: u64,
    pub incompatible_features: u64,
    pub compatible_features: u64,
    pub autoclear_features: u64,
    pub refcount_order: u32,
    pub header_size: u32,
    /// Compression algorithm of compressed clusters; zlib where the header does not say.
    pub compression_type: u8,
    pub backing_file_path: Option<String>,
}

impl Clone for QcowHeader {
    fn clone(&self) -> (r: Self)
        ensures
            r == *self,
    {
        let path = match &self.backing_file_path {
            Some(s) => Some(s.clone()),
            None => None,
        };
        QcowHeader {
            magic: self.magic,
            version: self.version,
            backing_file_offset: self.backing_file_offset,
            backing_file_size: self.backing_file_size,
            cluster_bits: self.cluster_bits,
            size: self.size,
            crypt_method: self.crypt_method,
            l1_size: self.l1_size,
            l1_table_offset: self.l1_table_offset,
            refcount_table_offset: self.refcount_table_offset,
            refcount_table_clusters: self.refcount_table_clusters,
            nb_snapshots: self.nb_snapshots,
            snapshots_offset: self.snapshots_offset,
            incompatible_features: self.incompatible_features,
            compatible_features: self.compatible_features,
            autoclear_features: self.autoclear_features,
            refcount_order: self.refcount_order,
            header_size: self.header_size,
            compression_type: self.compression_type,
            backing_file_path: path,
        }
    }
}

/// The 32-bit field at `at`.
pub open spec fn field32(b: Seq<u8>, at: int) -> u32 {
    bytes::be_value(b.subrange(at, at + 4)) as u32
}

/// The 64-bit field at `at`.
pub open spec fn field64(b: Seq<u8>, at: int) -> u64 {
    bytes::be_value(b.subrange(at, at + 8)) as u64
}

impl QcowHeader {
    /// The fixed part of the header says what the bytes of `b` say.
    pub open spec fn fixed_part_is(&self, b: Seq<u8>) -> bool {
        &&& self.magic == field32(b, 0)
        &&& self.version == field32(b, 4)
        &&& self.backing_file_offset == field64(b, 8)
        &&& self.backing_file_size == field32(b, 16)
        &&& self.cluster_bits == field32(b, 20)
        &&& self.size == field64(b, 24)
        &&& self.crypt_method == field32(b, 32)
        &&& self.l1_size == field32(b, 36)
        &&& self.l1_table_offset == field64(b, 40)
        &&& self.refcount_table_offset == field64(b, 48)
        &&& self.refcount_table_clusters == field32(b, 56)
        &&& self.nb_snapshots == field32(b, 60)
        &&& self.snapshots_offset == field64(b, 64)
        &&& self.incompatible_features == field64(b, 72)
        &&& self.compatible_features == field64(b, 80)
        &&& self.autoclear_features == field64(b, 88)
        &&& self.refcount_order == field32(b, 96)
        &&& self.header_size == field32(b, 100)
    }

    /// The path of the backing file as text.
    pub open spec fn path(&self) -> Option<Seq<char>> {
        match self.backing_file_path {
            Some(s) => Some(s@),
            None => None,
        }
    }
}

/// The header of `b` goes past the bare layout, so it names a compression type.
pub open spec fn names_compression(b: Seq<u8>) -> bool {
    field32(b, 4) >= 3 && field32(b, 100) > qcow::V3_BARE_HEADER_SIZE
}

/// The header of `b` names a backing file.
pub open spec fn names_backing(b: Seq<u8>) -> bool {
    field64(b, 8) != 0
}

/// The file `b` ends before the backing file's name does, or cannot be positioned there.
pub open spec fn backing_out_of_reach(b: Seq<u8>) -> bool {
    field64(b, 8) > qcow::MAX_SEEK || (field32(b, 16) > 0 && field64(b, 8) + field32(b, 16)
        > b.len())
}

/// The bytes of the backing file's name.
pub open spec fn backing_name(b: Seq<u8>) -> Seq<u8> {
    if field32(b, 16) == 0 {
        Seq::empty()
    } else {
        b.subrange(field64(b, 8) as int, field64(b, 8) + field32(b, 16))
    }
}

/// What is wrong with the header of the file `b`, if anything is.
pub open spec fn header_error(b: Seq<u8>) -> Option<Error> {
    if b.len() < 4 {
        Some(Error::ReadingHeader)
    } else if field32(b, 0) != qcow::QCOW_MAGIC {
        Some(Error::InvalidMagic)
    } else if b.len() < qcow::V3_BARE_HEADER_SIZE {
        Some(Error::ReadingHeader)
    } else if field32(b, 16) > qcow::MAX_BACKING_FILE_SIZE {
        Some(Error::BackingFileTooLong((field32(b, 16) - qcow::MAX_BACKING_FILE_SIZE) as usize))
    } else if names_compression(b) && b.len() <= qcow::V3_BARE_HEADER_SIZE {
        Some(Error::ReadingHeader)
    } else if names_backing(b) && backing_out_of_reach(b) {
        Some(Error::ReadingHeader)
    } else if names_backing(b) && !valid_utf8(backing_name(b)) {
        Some(Error::InvalidBackingFileName)
    } else {
        None
    }
}

/// Calls `String::from_utf8`: the text, exactly where the bytes are valid UTF-8.
#[verifier::external_body]
fn utf8_text(v: Vec<u8>) -> (r: Option<String>)
    ensures
        match r {
            Some(s) => valid_utf8(v@) && s@ == decode_utf8(v@),
            None => !valid_utf8(v@),
        },
{
    String::from_utf8(v).ok()
}

impl QcowHeader {
    /// Reads the header from the bytes of a file.
    pub fn new(file: &[u8]) -> (r: Result<QcowHeader, Error>)
        ensures
            match header_error(file@) {
                Some(e) => r is Err && r->Err_0 == e,
                None => {
                    &&& r is Ok
                    &&& r->Ok_0.fixed_part_is(file@)
                    &&& r->Ok_0.compression_type == (if names_compression(file@) {
                        file@[104]
                    } else {
                        qcow::QCOW_COMPRESSION_TYPE_ZLIB
                    })
                    &&& r->Ok_0.path() == (if names_backing(file@) {
                        Some(decode_utf8(backing_name(file@)))
                    } else {
                        None
                    })
                },
            },
    {
        let mut header = match QcowHeader::fixed_part(file) {
            Ok(h) => h,
            Err(e) => {
                return Err(e);
            },
        };
        if header.backing_file_offset != 0 {
            let at: u64 = header.backing_file_offset;
            let len: usize = header.backing_file_size as usize;
            if at > qcow::MAX_SEEK {
                return Err(Error::ReadingHeader);
            }
            let name = if len == 0 {
                Vec::new()
            } else {
                if at > file.len() as u64 || len > file.len() - at as usize {
                    return Err(Error::ReadingHeader);
                }
                vstd::slice::slice_to_vec(
                    vstd::slice::slice_subrange(file, at as usize, at as usize + len),
                )
            };
            assert(name@ =~= backing_name(file@));
            match utf8_text(name) {
                Some(path) => {
                    header.backing_file_path = Some(path);
                },
                None => {
                    return Err(Error::InvalidBackingFileName);
                },
            }
        }
        Ok(header)
    }

    /// Reads everything but the backing file's name, which may stand anywhere in the file.
    ///
    /// Where the name is to be read, [`QcowHeader::backing_name_range`] says where it stands and
    /// [`QcowHeader::set_backing_name`] takes it.
    pub fn fixed_part(file: &[u8]) -> (r: Result<QcowHeader, Error>)
        ensures
            if file@.len() < 4 {
                r is Err && r->Err_0 == Error::ReadingHeader
            } else if field32(file@, 0) != qcow::QCOW_MAGIC {
                r is Err && r->Err_0 == Error::InvalidMagic
            } else if file@.len() < 104 {
                r is Err && r->Err_0 == Error::ReadingHeader
            } else if field32(file@, 16) > qcow::MAX_BACKING_FILE_SIZE {
                r is Err && r->Err_0 == Error::BackingFileTooLong(
                    (field32(file@, 16) - qcow::MAX_BACKING_FILE_SIZE) as usize,
                )
            } else if names_compression(file@) && file@.len() == 104 {
                r is Err && r->Err_0 == Error::ReadingHeader
            } else {
                &&& r is Ok
                &&& r->Ok_0.fixed_part_is(file@)
                &&& r->Ok_0.compression_type == (if names_compression(file@) {
                    file@[104]
                } else {
                    qcow::QCOW_COMPRESSION_TYPE_ZLIB
                })
                &&& r->Ok_0.backing_file_path is None
            },
    {
        if file.len() < 4 {
            return Err(Error::ReadingHeader);
        }
        let magic: u32 = bytes::get_be32(file, 0);
        if magic != qcow::QCOW_MAGIC {
            return Err(Error::InvalidMagic);
        }
        if file.len() < 104 {
            return Err(Error::ReadingHeader);
        }
        let mut header = QcowHeader {
            magic,
            version: bytes::get_be32(file, 4),
            backing_file_offset: bytes::get_be64(file, 8),
            backing_file_size: bytes::get_be32(file, 16),
            cluster_bits: bytes::get_be32(file, 20),
            size: bytes::get_be64(file, 24),
            crypt_method: bytes::get_be32(file, 32),
            l1_size: bytes::get_be32(file, 36),
            l1_table_offset: bytes::get_be64(file, 40),
            refcount_table_offset: bytes::get_be64(file, 48),
            refcount_table_clusters: bytes::get_be32(file, 56),
            nb_snapshots: bytes::get_be32(file, 60),
            snapshots_offset: bytes::get_be64(file, 64),
            incompatible_features: bytes::get_be64(file, 72),
            compatible_features: bytes::get_be64(file, 80),
            autoclear_features: bytes::get_be64(file, 88),
            refcount_order: bytes::get_be32(file, 96),
            header_size: bytes::get_be32(file, 100),
            compression_type: qcow::QCOW_COMPRESSION_TYPE_ZLIB,
            backing_file_path: None,
        };
        if header.backing_file_size > qcow::MAX_BACKING_FILE_SIZE {
            return Err(
                Error::BackingFileTooLong(
                    (header.backing_file_size - qcow::MAX_BACKING_FILE_SIZE) as usize,
                ),
            );
        }
        if header.version >= 3 && header.header_size > qcow::V3_BARE_HEADER_SIZE {
            if file.len() < 105 {
                return Err(Error::ReadingHeader);
            }
            header.compression_type = file[104];
        }
        Ok(header)
    }

    /// Where the name of the backing file stands, if there is one.
    pub open spec fn name_range(&self) -> Option<(u64, u32)> {
        if self.backing_file_offset == 0 {
            None
        } else {
            Some((self.backing_file_offset, self.backing_file_size))
        }
    }

    /// Where the backing file's name stands, if the header names one.
    pub fn backing_name_range(&self) -> (r: Option<(u64, u32)>)
        ensures
            r == (if self.backing_file_offset != 0 {
                Some((self.backing_file_offset, self.backing_file_size))
            } else {
                None
            }),
            r == self.name_range(),
    {
        if self.backing_file_offset != 0 {
            Some((self.backing_file_offset, self.backing_file_size))
        } else {
            None
        }
    }

    /// Takes the bytes of the backing file's name.
    pub fn set_backing_name(&mut self, name: Vec<u8>) -> (r: Result<(), Error>)
        ensures
            if valid_utf8(name@) {
                &&& r is Ok
                &&& final(self).path() == Some(decode_utf8(name@))
                &&& *final(self) == (QcowHeader {
                    backing_file_path: final(self).backing_file_path,
                    ..*old(self)
                })
            } else {
                r == Err::<(), Error>(Error::InvalidBackingFileName) && *final(self) == *old(self)
            },
    {
        match utf8_text(name) {
            Some(path) => {
                self.backing_file_path = Some(path);
                Ok(())
            },
            None => Err(Error::InvalidBackingFileName),
        }
    }
}

/// Four bytes, big end first.
pub open spec fn put32(v: u32) -> Seq<u8> {
    bytes::be_bytes(v as nat, 4)
}

/// Eight bytes, big end first.
pub open spec fn put64(v: u64) -> Seq<u8> {
    bytes::be_bytes(v as nat, 8)
}

impl QcowHeader {
    /// The bytes of the fixed part.
    pub open spec fn fixed_bytes(&self) -> Seq<u8> {
        put32(self.magic) + put32(self.version) + put64(self.backing_file_offset) + put32(
            self.backing_file_size,
        ) + put32(self.cluster_bits) + put64(self.size) + put32(self.crypt_method) + put32(
            self.l1_size,
        ) + put64(self.l1_table_offset) + put64(self.refcount_table_offset) + put32(
            self.refcount_table_clusters,
        ) + put32(self.nb_snapshots) + put64(self.snapshots_offset) + put64(
            self.incompatible_features,
        ) + put64(self.compatible_features) + put64(self.autoclear_features) + put32(
            self.refcount_order,
        ) + put32(self.header_size)
    }

    /// The bytes of the backing file's name.
    pub open spec fn path_bytes(&self) -> Seq<u8> {
        match self.path() {
            Some(p) => encode_utf8(p),
            None => Seq::empty(),
        }
    }

    /// The header goes past the bare layout, so it names a compression type.
    pub open spec fn is_extended(&self) -> bool {
        self.version >= 3 && self.header_size > qcow::V3_BARE_HEADER_SIZE
    }

    /// The eight bytes behind the fixed part. An extended header has its compression type there,
    /// and padding; any other has an empty extension area.
    pub open spec fn extension_bytes(&self) -> Seq<u8> {
        if self.is_extended() {
            seq![self.compression_type, 0u8, 0u8, 0u8, 0u8, 0u8, 0u8, 0u8]
        } else {
            put64(0)
        }
    }

    /// The bytes that a file starts with: the fixed part, what extends it, and the backing file's
    /// name.
    pub open spec fn all_bytes(&self) -> Seq<u8> {
        self.fixed_bytes() + self.extension_bytes() + self.path_bytes()
    }

    /// Where the last byte of the refcount table is. It is written to give a new file its length.
    pub open spec fn tail(&self) -> int {
        self.refcount_table_offset + self.refcount_table_clusters * cluster_size_of(
            self.cluster_bits,
        ) - 1
    }

    /// The header leaves room for a tail.
    pub open spec fn has_tail(&self) -> bool {
        self.cluster_bits < 64 && 0 <= self.tail() && self.tail() + 1 <= u64::MAX
    }
}

/// Two to the power `bits`.
pub open spec fn cluster_size_of(bits: u32) -> int {
    vstd::arithmetic::power2::pow2(bits as nat) as int
}

/// Appends four bytes.
fn push32(out: &mut Vec<u8>, v: u32)
    ensures
        final(out)@ == old(out)@ + put32(v),
{
    let b = bytes::be32_bytes(v);
    out.extend_from_slice(&b);
    assert(out@ =~= old(out)@ + put32(v));
}

/// Appends eight bytes.
fn push64(out: &mut Vec<u8>, v: u64)
    ensures
        final(out)@ == old(out)@ + put64(v),
{
    let b = bytes::be64_bytes(v);
    out.extend_from_slice(&b);
    assert(out@ =~= old(out)@ + put64(v));
}

impl QcowHeader {
    /// The bytes that a file with this header starts with.
    pub fn to_bytes(&self) -> (r: Vec<u8>)
        ensures
            r@ == self.all_bytes(),
    {
        let mut out: Vec<u8> = Vec::new();
        push32(&mut out, self.magic);
        push32(&mut out, self.version);
        push64(&mut out, self.backing_file_offset);
        push32(&mut out, self.backing_file_size);
        push32(&mut out, self.cluster_bits);
        push64(&mut out, self.size);
        push32(&mut out, self.crypt_method);
        push32(&mut out, self.l1_size);
        push64(&mut out, self.l1_table_offset);
        push64(&mut out, self.refcount_table_offset);
        push32(&mut out, self.refcount_table_clusters);
        push32(&mut out, self.nb_snapshots);
        push64(&mut out, self.snapshots_offset);
        push64(&mut out, self.incompatible_features);
        push64(&mut out, self.compatible_features);
        push64(&mut out, self.autoclear_features);
        push32(&mut out, self.refcount_order);
        push32(&mut out, self.header_size);
        assert(out@ =~= self.fixed_bytes());
        if self.version >= 3 && self.header_size > qcow::V3_BARE_HEADER_SIZE {
            let extension: [u8; 8] = [self.compression_type, 0, 0, 0, 0, 0, 0, 0];
            out.extend_from_slice(&extension);
            assert(extension@ =~= self.extension_bytes());
        } else {
            // The end of the header extension area, and the length of its data.
            push64(&mut out, 0);
        }
        assert(out@ =~= self.fixed_bytes() + self.extension_bytes());
        if let Some(path) = &self.backing_file_path {
            let name = path.as_str().as_bytes();
            out.extend_from_slice(name);
        }
        assert(out@ =~= self.all_bytes());
        out
    }
}

/// A 32-bit field reads back.
proof fn field32_reads_back(b: Seq<u8>, at: int, v: u32)
    requires
        0 <= at,
        at + 4 <= b.len(),
        b.subrange(at, at + 4) == put32(v),
    ensures
        field32(b, at) == v,
{
    bytes::byte_pow_values();
    bytes::be_round_trip(v as nat, 4);
}

/// A 64-bit field reads back.
proof fn field64_reads_back(b: Seq<u8>, at: int, v: u64)
    requires
        0 <= at,
        at + 8 <= b.len(),
        b.subrange(at, at + 8) == put64(v),
    ensures
        field64(b, at) == v,
{
    bytes::byte_pow_values();
    bytes::be_round_trip(v as nat, 8);
}

/// Every byte string of a field has the field's width.
proof fn widths()
    ensures
        forall|v: u32| (#[trigger] put32(v)).len() == 4,
        forall|v: u64| (#[trigger] put64(v)).len() == 8,
{
    assert forall|v: u32| (#[trigger] put32(v)).len() == 4 by {
        bytes::be_bytes_len(v as nat, 4);
    }
    assert forall|v: u64| (#[trigger] put64(v)).len() == 8 by {
        bytes::be_bytes_len(v as nat, 8);
    }
}

/// The fixed part of a file that starts with the header's bytes says what the header says.
proof fn fixed_part_reads_back(h: QcowHeader, b: Seq<u8>)
    requires
        b.len() >= 112,
        b.subrange(0, 112) == h.fixed_bytes() + h.extension_bytes(),
    ensures
        h.fixed_part_is(b),
        h.is_extended() ==> b[104] == h.compression_type,
{
    widths();
    let a = h.fixed_bytes() + h.extension_bytes();
    assert(a.len() == 112);
    assert forall|i: int, j: int| 0 <= i <= j <= 112 implies #[trigger] b.subrange(i, j)
        == a.subrange(i, j) by {
        assert(b.subrange(i, j) =~= b.subrange(0, 112).subrange(i, j));
    }
    assert(a.subrange(0, 4) =~= put32(h.magic));
    assert(a.subrange(4, 8) =~= put32(h.version));
    assert(a.subrange(8, 16) =~= put64(h.backing_file_offset));
    assert(a.subrange(16, 20) =~= put32(h.backing_file_size));
    assert(a.subrange(20, 24) =~= put32(h.cluster_bits));
    assert(a.subrange(24, 32) =~= put64(h.size));
    assert(a.subrange(32, 36) =~= put32(h.crypt_method));
    assert(a.subrange(36, 40) =~= put32(h.l1_size));
    assert(a.subrange(40, 48) =~= put64(h.l1_table_offset));
    assert(a.subrange(48, 56) =~= put64(h.refcount_table_offset));
    assert(a.subrange(56, 60) =~= put32(h.refcount_table_clusters));
    assert(a.subrange(60, 64) =~= put32(h.nb_snapshots));
    assert(a.subrange(64, 72) =~= put64(h.snapshots_offset));
    assert(a.subrange(72, 80) =~= put64(h.incompatible_features));
    assert(a.subrange(80, 88) =~= put64(h.compatible_features));
    assert(a.subrange(88, 96) =~= put64(h.autoclear_features));
    assert(a.subrange(96, 100) =~= put32(h.refcount_order));
    assert(a.subrange(100, 104) =~= put32(h.header_size));
    field32_reads_back(b, 0, h.magic);
    field32_reads_back(b, 4, h.version);
    field64_reads_back(b, 8, h.backing_file_offset);
    field32_reads_back(b, 16, h.backing_file_size);
    field32_reads_back(b, 20, h.cluster_bits);
    field64_reads_back(b, 24, h.size);
    field32_reads_back(b, 32, h.crypt_method);
    field32_reads_back(b, 36, h.l1_size);
    field64_reads_back(b, 40, h.l1_table_offset);
    field64_reads_back(b, 48, h.refcount_table_offset);
    field32_reads_back(b, 56, h.refcount_table_clusters);
    field32_reads_back(b, 60, h.nb_snapshots);
    field64_reads_back(b, 64, h.snapshots_offset);
    field64_reads_back(b, 72, h.incompatible_features);
    field64_reads_back(b, 80, h.compatible_features);
    field64_reads_back(b, 88, h.autoclear_features);
    field32_reads_back(b, 96, h.refcount_order);
    field32_reads_back(b, 100, h.header_size);
    assert(b[104] == b.subrange(0, 112)[104]);
}

impl QcowHeader {
    /// What a header needs to be read back from the bytes it is written as: the magic, the default
    /// compression type where the header is not extended to name one, and a backing file's name
    /// that stands, or does not, where the header says.
    pub open spec fn reads_back(&self) -> bool {
        &&& self.magic == qcow::QCOW_MAGIC
        &&& self.is_extended() || self.compression_type == qcow::QCOW_COMPRESSION_TYPE_ZLIB
        &&& self.backing_file_size <= qcow::MAX_BACKING_FILE_SIZE
        &&& match self.path() {
            None => self.backing_file_offset == 0,
            Some(_) => self.backing_file_offset == 112 && self.backing_file_size
                == self.path_bytes().len(),
        }
    }
}

/// A header that is written and read again is the same header: whatever follows its bytes in the
/// file, the header of the file is without error and every field of it is as it was.
pub proof fn header_round_trip(h: QcowHeader, rest: Seq<u8>)
    requires
        h.reads_back(),
    ensures
        header_error(h.all_bytes() + rest) is None,
        h.fixed_part_is(h.all_bytes() + rest),
        h.compression_type == (if names_compression(h.all_bytes() + rest) {
            (h.all_bytes() + rest)[104]
        } else {
            qcow::QCOW_COMPRESSION_TYPE_ZLIB
        }),
        names_backing(h.all_bytes() + rest) == (h.backing_file_path is Some),
        h.path() matches Some(p) ==> decode_utf8(backing_name(h.all_bytes() + rest)) == p,
{
    let b = h.all_bytes() + rest;
    widths();
    assert(b.subrange(0, 112) =~= h.fixed_bytes() + h.extension_bytes());
    fixed_part_reads_back(h, b);
    if let Some(p) = h.path() {
        encode_utf8_valid_utf8(p);
        encode_utf8_decode_utf8(p);
        assert(backing_name(b) =~= encode_utf8(p));
    }
}

impl QcowHeader {
    /// Where the last byte of the refcount table is. Writing it gives a new file its length, and
    /// zeroes the L1 table and the refcount table, since nothing else was written there.
    pub fn tail_offset(&self) -> (r: u64)
        requires
            self.has_tail(),
        ensures
            r == self.tail(),
    {
        let cs: u64 = geometry::cluster_size(self.cluster_bits);
        proof {
            assert(self.refcount_table_clusters * cs >= 0) by (nonlinear_arith)
                requires
                    self.refcount_table_clusters >= 0,
                    cs >= 0,
            ;
        }
        self.refcount_table_offset + self.refcount_table_clusters as u64 * cs - 1
    }

    /// Writes the header to the bytes of a file, which grows to hold the tables if it has to.
    pub fn write_to(&self, file: &mut Vec<u8>)
        requires
            self.has_tail(),
            self.tail() < usize::MAX,
            self.all_bytes().len() <= usize::MAX,
        ensures
            final(file)@ == written(old(file)@, self.all_bytes(), self.tail()),
    {
        let head = self.to_bytes();
        let tail: usize = self.tail_offset() as usize;
        let mut i: usize = 0;
        while i < head.len()
            invariant
                i <= head@.len(),
                file@.len() == (if old(file)@.len() < i {
                    i as nat
                } else {
                    old(file)@.len()
                }),
                forall|j: int|
                    0 <= j < file@.len() ==> file@[j] == (if j < i {
                        head@[j]
                    } else {
                        old(file)@[j]
                    }),
            decreases head@.len() - i,
        {
            if i < file.len() {
                file[i] = head[i];
            } else {
                file.push(head[i]);
            }
            i = i + 1;
        }
        let ghost mid = file@;
        while file.len() <= tail
            invariant
                tail < usize::MAX,
                mid.len() <= file@.len(),
                mid.len() < file@.len() ==> file@.len() <= tail + 1,
                forall|j: int|
                    0 <= j < file@.len() ==> file@[j] == (if j < mid.len() {
                        mid[j]
                    } else {
                        0u8
                    }),
            decreases tail + 1 - file@.len(),
        {
            file.push(0);
        }
        file[tail] = 0;
        assert(file@ =~= written(old(file)@, self.all_bytes(), self.tail()));
    }
}

/// The file `old_file` after `head` was written at its start and a zero at `tail`; what lies
/// between, where the file did not reach, is zero.
pub open spec fn written(old_file: Seq<u8>, head: Seq<u8>, tail: int) -> Seq<u8> {
    let len = vstd::math::max(vstd::math::max(old_file.len() as int, head.len() as int), tail + 1);
    Seq::new(
        len as nat,
        |i: int|
            if i == tail {
                0u8
            } else if i < head.len() {
                head[i]
            } else if i < old_file.len() {
                old_file[i]
            } else {
                0u8
            },
    )
}

/// The clusters of an image of `size` bytes, as far as 32 bits count them.
pub open spec fn created_clusters(size: u64) -> int {
    geometry::ceil_div(size as int, 0x1_0000) % 0x1_0000_0000
}

/// The L2 tables of such an image.
pub open spec fn created_l2_tables(size: u64) -> int {
    geometry::ceil_div(created_clusters(size), 8192)
}

/// The clusters of its L1 table, which holds the offset of every L2 table.
pub open spec fn created_l1_clusters(size: u64) -> int {
    geometry::ceil_div(created_l2_tables(size) * 8, 0x1_0000)
}

/// The clusters of the image and of its tables.
pub open spec fn created_total(size: u64) -> int {
    created_clusters(size) + created_l1_clusters(size) + created_l2_tables(size) + 1
}

/// The clusters of its refcount table, which holds the offset of every cluster of counts.
pub open spec fn created_refcount_table(size: u64) -> int {
    geometry::ceil_div(
        geometry::refcount_clusters_for(2, 0x1_0000, created_total(size)) * 8,
        0x1_0000,
    )
}

/// Longest name of a backing file that fits a new header.
pub const MAX_NEW_BACKING_NAME: usize = 65424;

impl QcowHeader {
    /// The header is that of a new image.
    pub open spec fn is_new_image(&self, size: u64, path: Option<Seq<char>>) -> bool {
        &&& self.magic == qcow::QCOW_MAGIC
        &&& self.version == 3
        &&& self.backing_file_offset == (if path is None {
            0int
        } else {
            112
        })
        &&& self.backing_file_size == self.path_bytes().len()
        &&& self.cluster_bits == qcow::DEFAULT_CLUSTER_BITS
        &&& self.size == size
        &&& self.crypt_method == 0
        &&& self.l1_size == created_l2_tables(size)
        &&& self.l1_table_offset == 0x1_0000
        &&& self.refcount_table_offset == 0x1_0000 * (created_l1_clusters(size) + 1)
        &&& self.refcount_table_clusters == created_refcount_table(size)
        &&& self.nb_snapshots == 0
        &&& self.snapshots_offset == 0
        &&& self.incompatible_features == 0
        &&& self.compatible_features == 0
        &&& self.autoclear_features == 0
        &&& self.refcount_order == qcow::DEFAULT_REFCOUNT_ORDER
        &&& self.header_size == qcow::V3_BARE_HEADER_SIZE
        &&& self.compression_type == qcow::QCOW_COMPRESSION_TYPE_ZLIB
        &&& self.path() == path
    }

    /// The header of a new image of that size, on top of a backing file if one is named.
    pub fn create_for_size_and_path(size: u64, backing_file: Option<&str>) -> (r: Result<
        QcowHeader,
        Error,
    >)
        requires
            created_total(size) <= u32::MAX,
        ensures
            match backing_file {
                None => r is Ok && r->Ok_0.is_new_image(size, None),
                Some(path) => if path.spec_bytes().len() > MAX_NEW_BACKING_NAME {
                    r is Err && r->Err_0 == Error::BackingFileTooLong(
                        (path.spec_bytes().len() - MAX_NEW_BACKING_NAME) as usize,
                    )
                } else {
                    r is Ok && r->Ok_0.is_new_image(size, Some(path@))
                },
            },
    {
        let mut name_len: usize = 0;
        if let Some(path) = backing_file {
            name_len = path.as_bytes().len();
            if name_len > MAX_NEW_BACKING_NAME {
                return Err(Error::BackingFileTooLong(name_len - MAX_NEW_BACKING_NAME));
            }
        }
        let num_clusters: u64 = geometry::div_ceil(size, 0x1_0000) % 0x1_0000_0000;
        // L2 tables are one cluster long, of eight-byte entries.
        let num_l2_clusters: u64 = geometry::div_ceil(num_clusters, 8192);
        let l1_clusters: u64 = geometry::div_ceil(num_l2_clusters * 8, 0x1_0000);
        let total: u64 = num_clusters + l1_clusters + num_l2_clusters + qcow::HEADER_CLUSTERS;
        proof {
            vstd::arithmetic::power2::lemma2_to64();
            assert(geometry::refcount_bytes(4) == 2);
        }
        let counts: u64 = geometry::max_refcount_clusters(
            qcow::DEFAULT_REFCOUNT_ORDER,
            qcow::DEFAULT_CLUSTER_SIZE,
            total as u32,
        );
        let table: u64 = geometry::div_ceil(counts * 8, 0x1_0000);
        Ok(
            QcowHeader {
                magic: qcow::QCOW_MAGIC,
                version: 3,
                backing_file_offset: if backing_file.is_none() {
                    0
                } else {
                    112
                },
                backing_file_size: name_len as u32,
                cluster_bits: qcow::DEFAULT_CLUSTER_BITS,
                size,
                crypt_method: 0,
                l1_size: num_l2_clusters as u32,
                l1_table_offset: 0x1_0000,
                // The refcount table is behind the header and the L1 table.
                refcount_table_offset: 0x1_0000 * (l1_clusters + 1),
                refcount_table_clusters: table as u32,
                nb_snapshots: 0,
                snapshots_offset: 0,
                incompatible_features: 0,
                compatible_features: 0,
                autoclear_features: 0,
                refcount_order: qcow::DEFAULT_REFCOUNT_ORDER,
                header_size: qcow::V3_BARE_HEADER_SIZE,
                compression_type: qcow::QCOW_COMPRESSION_TYPE_ZLIB,
                backing_file_path: match backing_file {
                    Some(path) => Some(path.to_owned()),
                    None => None,
                },
            },
        )
    }
}

/// A header that was made for a new image reads back, as long as the backing file's name is one
/// that a header may hold.
pub proof fn a_new_header_reads_back(h: QcowHeader, size: u64, path: Option<Seq<char>>)
    requires
        h.is_new_image(size, path),
        path matches Some(p) ==> encode_utf8(p).len() <= qcow::MAX_BACKING_FILE_SIZE,
    ensures
        h.reads_back(),
{
}

/// In a new image the header, the L1 table and the refcount table follow each other without
/// overlap.
pub proof fn new_tables_do_not_overlap(h: QcowHeader, size: u64, path: Option<Seq<char>>)
    requires
        h.is_new_image(size, path),
        h.path_bytes().len() <= MAX_NEW_BACKING_NAME,
    ensures
        h.all_bytes().len() <= h.l1_table_offset,
        h.l1_table_offset + h.l1_size * 8 <= h.refcount_table_offset,
        h.refcount_table_clusters > 0,
{
    widths();
    geometry::ceil_div_is_least(created_l2_tables(size) * 8, 0x1_0000, created_l1_clusters(size));
    assert(created_clusters(size) >= 0);
    assert(created_l2_tables(size) >= 0);
    assert(created_total(size) >= 1);
    let counts = geometry::refcount_clusters_for(2, 0x1_0000, created_total(size));
    assert(counts >= 1);
    assert(created_refcount_table(size) >= 1);
}

/// The L1 table of a new image has an entry for every byte of the disk, and no more than it needs.
pub proof fn new_images_map_every_byte(h: QcowHeader, size: u64, path: Option<Seq<char>>)
    requires
        h.is_new_image(size, path),
        size <= qcow::MAX_QCOW_FILE_SIZE,
    ensures
        h.l1_size == geometry::ceil_div(size as int, 0x2000_0000),
        size <= h.l1_size * 0x2000_0000,
{
}

/// A new image, written to an empty file, is as long as its tables need, and everything behind
/// the header is zero.
pub proof fn new_files_hold_their_tables(h: QcowHeader, size: u64, path: Option<Seq<char>>)
    requires
        h.is_new_image(size, path),
        h.path_bytes().len() <= MAX_NEW_BACKING_NAME,
    ensures
        ({
            let file = written(Seq::empty(), h.all_bytes(), h.tail());
            &&& file.len() == h.refcount_table_offset + h.refcount_table_clusters * 0x1_0000
            &&& file.take(h.all_bytes().len() as int) == h.all_bytes()
            &&& forall|i: int| h.all_bytes().len() <= i < file.len() ==> #[trigger] file[i] == 0
        }),
{
    new_tables_do_not_overlap(h, size, path);
    vstd::arithmetic::power2::lemma2_to64();
    let file = written(Seq::empty(), h.all_bytes(), h.tail());
    assert(file.take(h.all_bytes().len() as int) =~= h.all_bytes());
}

/// The number in the four bytes at a place, high byte first.
pub open spec fn four(b: Seq<u8>, at: int) -> int {
    b[at] * 0x100_0000 + b[at + 1] * 0x1_0000 + b[at + 2] * 0x100 + b[at + 3]
}

/// The number in the eight bytes at a place, high byte first.
pub open spec fn eight(b: Seq<u8>, at: int) -> int {
    four(b, at) * 0x1_0000_0000 + four(b, at + 4)
}

/// Fields are numbers with their high byte first.
proof fn fields_are_numbers(b: Seq<u8>, at: int)
    requires
        0 <= at,
    ensures
        at + 4 <= b.len() ==> field32(b, at) == four(b, at),
        at + 8 <= b.len() ==> field64(b, at) == eight(b, at),
{
    if at + 4 <= b.len() {
        bytes::be_value_4(b.subrange(at, at + 4));
    }
    if at + 8 <= b.len() {
        let s = b.subrange(at, at + 8);
        bytes::be_value_8(s);
        bytes::be_value_4(s.subrange(0, 4));
        bytes::be_value_4(s.subrange(4, 8));
    }
}

/// Where each field of a header stands in the file.
pub proof fn fields_have_their_places(h: QcowHeader, b: Seq<u8>)
    requires
        b.len() >= 104,
    ensures
        h.fixed_part_is(b) <==> {
            &&& h.magic == four(b, 0)
            &&& h.version == four(b, 4)
            &&& h.backing_file_offset == eight(b, 8)
            &&& h.backing_file_size == four(b, 16)
            &&& h.cluster_bits == four(b, 20)
            &&& h.size == eight(b, 24)
            &&& h.crypt_method == four(b, 32)
            &&& h.l1_size == four(b, 36)
            &&& h.l1_table_offset == eight(b, 40)
            &&& h.refcount_table_offset == eight(b, 48)
            &&& h.refcount_table_clusters == four(b, 56)
            &&& h.nb_snapshots == four(b, 60)
            &&& h.snapshots_offset == eight(b, 64)
            &&& h.incompatible_features == eight(b, 72)
            &&& h.compatible_features == eight(b, 80)
            &&& h.autoclear_features == eight(b, 88)
            &&& h.refcount_order == four(b, 96)
            &&& h.header_size == four(b, 100)
        },
{
    fields_are_numbers(b, 0);
    fields_are_numbers(b, 4);
    fields_are_numbers(b, 8);
    fields_are_numbers(b, 16);
    fields_are_numbers(b, 20);
    fields_are_numbers(b, 24);
    fields_are_numbers(b, 32);
    fields_are_numbers(b, 36);
    fields_are_numbers(b, 40);
    fields_are_numbers(b, 48);
    fields_are_numbers(b, 56);
    fields_are_numbers(b, 60);
    fields_are_numbers(b, 64);
    fields_are_numbers(b, 72);
    fields_are_numbers(b, 80);
    fields_are_numbers(b, 88);
    fields_are_numbers(b, 96);
    fields_are_numbers(b, 100);
}

/// A file has a header exactly where it begins with the four bytes that mark one and holds all of it, and
/// the name of the backing file, if it has one, is in the file, is text and is not longer than 1023
/// bytes. The byte behind the bare layout is part of the header where it says so.
pub proof fn headers_that_are_read(b: Seq<u8>)
    ensures
        header_error(b) is None <==> {
            &&& b.len() >= 104
            &&& b[0] == 0x51 && b[1] == 0x46 && b[2] == 0x49 && b[3] == 0xfb
            &&& four(b, 16) <= 1023
            &&& four(b, 4) >= 3 && four(b, 100) > 104 ==> b.len() >= 105
            &&& eight(b, 8) > 0 ==> eight(b, 8) < 0x8000_0000_0000_0000
            &&& eight(b, 8) > 0 && four(b, 16) > 0 ==> eight(b, 8) + four(b, 16) <= b.len()
            &&& eight(b, 8) > 0 ==> valid_utf8(backing_name(b))
        },
        header_error(b) == Some(Error::InvalidMagic) <==> b.len() >= 4 && !(b[0] == 0x51 && b[1]
            == 0x46 && b[2] == 0x49 && b[3] == 0xfb),
        b.len() >= 104 ==> (names_compression(b) <==> four(b, 4) >= 3 && four(b, 100) > 104),
        b.len() >= 104 && eight(b, 8) + four(b, 16) <= b.len() && four(b, 16) > 0 ==> backing_name(
            b,
        ) == b.subrange(eight(b, 8), eight(b, 8) + four(b, 16)),
{
    fields_are_numbers(b, 0);
    fields_are_numbers(b, 4);
    fields_are_numbers(b, 8);
    fields_are_numbers(b, 16);
    fields_are_numbers(b, 100);
}

/// A new image has clusters of 64 kibibytes and counts of two bytes, no feature, no snapshot and no
/// encryption, and the bare layout; the name of its backing file is right behind an empty list of
/// extensions. Its tables lie behind the header, one after the other, and have room for the offset of
/// every L2 table and of every cluster of counts.
pub proof fn new_images_are_plain(h: QcowHeader, size: u64, path: Option<Seq<char>>)
    requires
        h.is_new_image(size, path),
    ensures
        h.magic == 0x5146_49fb,
        h.version == 3,
        h.cluster_bits == 16,
        h.refcount_order == 4,
        h.header_size == 104,
        h.compression_type == 0,
        h.size == size,
        h.backing_file_offset == 0 <==> path is None,
        path is Some ==> h.backing_file_offset == 104 + 8,
        path is Some ==> h.backing_file_offset == qcow::V3_BARE_HEADER_SIZE
            + qcow::QCOW_EMPTY_HEADER_EXTENSION_SIZE,
        h.l1_table_offset == 65536,
        h.refcount_table_offset % 65536 == 0,
        (h.refcount_table_offset - h.l1_table_offset) >= h.l1_size * 8,
        h.refcount_table_clusters * 65536 >= 8 * geometry::refcount_clusters_for(
            2,
            65536,
            created_total(size),
        ),
        h.incompatible_features == 0 && h.compatible_features == 0 && h.autoclear_features == 0,
        h.nb_snapshots == 0 && h.crypt_method == 0,
{
    assert(created_clusters(size) >= 0);
    assert(created_l2_tables(size) >= 0);
    assert(created_total(size) >= 1);
    let counts = geometry::refcount_clusters_for(2, 0x1_0000, created_total(size));
    assert(counts >= 1);
    geometry::ceil_div_is_least(created_l2_tables(size) * 8, 0x1_0000, created_l1_clusters(size));
    geometry::ceil_div_is_least(counts * 8, 0x1_0000, created_refcount_table(size));
}

/// A new image has a table entry for every cluster of the disk, and it has its header, its tables and
/// those clusters counted.
pub proof fn new_images_are_counted(size: u64)
    requires
        size <= qcow::MAX_QCOW_FILE_SIZE,
    ensures
        created_clusters(size) * 0x1_0000 >= size,
        (created_clusters(size) - 1) * 0x1_0000 < size || size == 0,
        created_l2_tables(size) * 8192 >= created_clusters(size),
        created_l1_clusters(size) * 8192 >= created_l2_tables(size),
        created_total(size) == 1 + created_l1_clusters(size) + created_l2_tables(size)
            + created_clusters(size),
{
}

/// The name of a backing file may fill what the header leaves of its cluster, to the last byte.
pub proof fn names_may_fill_the_header_cluster(h: QcowHeader, size: u64, path: Option<Seq<char>>)
    requires
        h.is_new_image(size, path),
    ensures
        h.path_bytes().len() <= MAX_NEW_BACKING_NAME <==> h.all_bytes().len() <= h.l1_table_offset,
{
    widths();
}

/// The name of a backing file is read from the range that the header gives for it; a header that gives
/// none has no backing file.
pub proof fn names_are_where_the_header_says(h: QcowHeader, b: Seq<u8>)
    requires
        b.len() >= 104,
        h.fixed_part_is(b),
    ensures
        h.name_range() is None <==> eight(b, 8) == 0,
        h.name_range() matches Some((at, len)) ==> at == eight(b, 8) && len == four(b, 16),
        h.name_range() matches Some((at, len)) ==> (len > 0 && at + len <= b.len() ==> b.subrange(
            at as int,
            at + len,
        ) == backing_name(b)),
{
    fields_have_their_places(h, b);
    headers_that_are_read(b);
}

} // verus!
