//! Requests of the guest, cut into pieces that lie in one cluster each.

use vstd::arithmetic::div_mod::*;
use vstd::prelude::*;

use crate::qcow::cache::ClusterCache;
use crate::qcow::geometry::Geometry;
use crate::qcow::map::ClusterData;
use crate::qcow::map::Lookup;
use crate::qcow::map::Mapping;

verus! {

/// How many bytes of a request the image has.
pub open spec fn request_len(g: Geometry, address: u64, count: usize) -> int {
    if address + count > u64::MAX || address > g.virtual_size {
        0
    } else if count <= g.virtual_size - address {
        count as int
    } else {
        g.virtual_size - address
    }
}

/// How many bytes from `address + done` on lie in one cluster and belong to the request.
pub open spec fn piece_len(g: Geometry, address: u64, count: usize, done: usize) -> int {
    let left = request_len(g, address, count) - done;
    let room = g.cs() - (address + done) % g.cs();
    if left <= room {
        left
    } else {
        room
    }
}

/// Every piece of a request has bytes, lies in one cluster and does not go past the request's end:
/// taking piece after piece covers the request, each byte of it once.
pub proof fn pieces_cover_the_request(g: Geometry, address: u64, count: usize, done: usize)
    requires
        g.wf(),
        done < request_len(g, address, count),
    ensures
        0 < piece_len(g, address, count, done),
        done + piece_len(g, address, count, done) <= request_len(g, address, count),
        (address + done) / g.cs() == (address + done + piece_len(g, address, count, done) - 1)
            / g.cs(),
        address + request_len(g, address, count) <= g.virtual_size,
{
    g.bounds();
    let a = address + done;
    let n = piece_len(g, address, count, done);
    lemma_mod_bound(a, g.cs());
    lemma_fundamental_div_mod(a, g.cs());
    let q = a / g.cs();
    assert(g.cs() * q == q * g.cs()) by (nonlinear_arith);
    lemma_fundamental_div_mod_converse(a + n - 1, g.cs(), q, a % g.cs() + n - 1);
}

/// Where the bytes of a piece come from.
#[derive(Clone, Copy, Debug, PartialEq, Eq, Structural)]
pub enum ReadSource {
    /// The file, at that offset.
    Disk(u64),
    /// The decompressed cluster of that L2 entry, from that byte on.
    Memory(u64, usize),
    /// The backing file, at that offset.
    Backing(u64),
    Zero,
}

/// What a read does next.
#[derive(Clone, Copy, Debug, PartialEq, Eq, Structural)]
pub enum ReadStep {
    /// The request is served; it had that many bytes.
    Done(usize),
    Invalid,
    /// The L2 table for that L1 index has to be read, at that offset of the file.
    NeedTable(usize, u64),
    /// So many bytes come from there.
    Piece(usize, ReadSource),
}

/// Where the bytes at `address` come from, if they are stored so.
pub open spec fn source_of(m: Mapping, address: u64, data: ClusterData) -> ReadSource {
    match data {
        ClusterData::Plain(offset) => ReadSource::Disk(offset),
        ClusterData::Compressed(entry) => ReadSource::Memory(
            entry,
            (address as int % m.geometry.cs()) as usize,
        ),
        ClusterData::Unallocated => if m.has_backing {
            ReadSource::Backing(address)
        } else {
            ReadSource::Zero
        },
        ClusterData::Zero => ReadSource::Zero,
    }
}

/// Says what a read of `count` bytes at `address` does next, when `done` bytes of it are served.
pub fn read_cb(m: &Mapping, address: u64, count: usize, done: usize) -> (r: ReadStep)
    requires
        m.wf(),
    ensures
        ({
            let n = request_len(m.geometry, address, count);
            if done >= n {
                r == ReadStep::Done(n as usize)
            } else {
                let a = (address + done) as u64;
                match m.lookup(a) {
                    Lookup::Invalid => r == ReadStep::Invalid,
                    Lookup::NeedTable(i, at) => r == ReadStep::NeedTable(i, at),
                    Lookup::Found(data) => r == ReadStep::Piece(
                        piece_len(m.geometry, address, count, done) as usize,
                        source_of(*m, a, data),
                    ),
                }
            }
        }),
        r == read_step(*m, address, count, done),
{
    let n: usize = m.geometry.limit_range_file(address, count);
    if done >= n {
        return ReadStep::Done(n);
    }
    let a: u64 = address + done as u64;
    let len: usize = m.geometry.limit_range_cluster(a, n - done);
    match m.file_offset_read(a) {
        Lookup::Invalid => ReadStep::Invalid,
        Lookup::NeedTable(i, at) => ReadStep::NeedTable(i, at),
        Lookup::Found(ClusterData::Plain(offset)) => ReadStep::Piece(
            len,
            ReadSource::Disk(offset),
        ),
        Lookup::Found(ClusterData::Compressed(entry)) => ReadStep::Piece(
            len,
            ReadSource::Memory(entry, m.geometry.cluster_offset(a) as usize),
        ),
        Lookup::Found(ClusterData::Unallocated) => if m.has_backing {
            ReadStep::Piece(len, ReadSource::Backing(a))
        } else {
            ReadStep::Piece(len, ReadSource::Zero)
        },
        Lookup::Found(ClusterData::Zero) => ReadStep::Piece(len, ReadSource::Zero),
    }
}

/// What a write does next.
#[derive(Clone, Copy, Debug, PartialEq, Eq, Structural)]
pub enum WriteStep {
    /// The request is served; it had that many bytes.
    Done(usize),
    /// So many bytes go to that address of the guest; so many from there on are going to be written
    /// at once.
    Piece(usize, u64, usize),
}

/// Says what a write of `count` bytes at `address` does next, when `done` bytes of it are served.
/// `writes_data` promises that every byte is going to be written; where it is not, the old contents
/// of a cluster have to be kept.
pub fn write_cb(m: &Mapping, address: u64, count: usize, writes_data: bool, done: usize) -> (r:
    WriteStep)
    requires
        m.wf(),
    ensures
        ({
            let n = request_len(m.geometry, address, count);
            if done >= n {
                r == WriteStep::Done(n as usize)
            } else {
                let a = (address + done) as u64;
                let len = piece_len(m.geometry, address, count, done) as usize;
                r == WriteStep::Piece(
                    len,
                    a,
                    if writes_data {
                        len
                    } else {
                        0
                    },
                )
            }
        }),
        r == write_step(*m, address, count, writes_data, done),
{
    let n: usize = m.geometry.limit_range_file(address, count);
    if done >= n {
        return WriteStep::Done(n);
    }
    let a: u64 = address + done as u64;
    let len: usize = m.geometry.limit_range_cluster(a, n - done);
    let overwrite_len: usize = if writes_data {
        len
    } else {
        0
    };
    WriteStep::Piece(len, a, overwrite_len)
}

/// What filling a range with zeroes does next.
#[derive(Clone, Copy, Debug, PartialEq, Eq, Structural)]
pub enum ZeroStep {
    Done,
    Invalid,
    NeedTable(usize, u64),
    /// A whole cluster, at that address, with nothing beneath it: its mapping is dropped.
    Deallocate(u64, usize),
    /// A whole cluster, at that address, on top of a backing file: it becomes a zero cluster.
    MarkZero(u64, usize),
    /// Part of a cluster, at that address, that needs storage before it can be zeroed.
    Allocate(u64, usize),
    /// So many bytes at that offset of the file are written with zeroes.
    ZeroAt(u64, usize),
    /// So many bytes read as zeroes already.
    Skip(usize),
}

/// What zeroing part of a cluster does where nothing lies beneath the image.
pub open spec fn partial_zero(m: Mapping, a: u64, len: usize) -> ZeroStep {
    match m.lookup(a) {
        Lookup::Invalid => ZeroStep::Invalid,
        Lookup::NeedTable(i, at) => ZeroStep::NeedTable(i, at),
        Lookup::Found(ClusterData::Plain(offset)) => ZeroStep::ZeroAt(offset, len),
        Lookup::Found(ClusterData::Compressed(_)) => ZeroStep::Allocate(a, len),
        Lookup::Found(_) => ZeroStep::Skip(len),
    }
}

/// What filling `length` bytes at `address` with zeroes does next, when `done` bytes are.
pub open spec fn zero_step(m: Mapping, address: u64, length: usize, done: usize) -> ZeroStep {
    if done >= request_len(m.geometry, address, length) {
        ZeroStep::Done
    } else {
        let a = (address + done) as u64;
        let len = piece_len(m.geometry, address, length, done) as usize;
        if len == m.geometry.cs() {
            if m.has_backing {
                ZeroStep::MarkZero(a, len)
            } else {
                ZeroStep::Deallocate(a, len)
            }
        } else if m.has_backing {
            ZeroStep::Allocate(a, len)
        } else {
            partial_zero(m, a, len)
        }
    }
}

/// Says what filling `length` bytes at `address` with zeroes does next, when `done` bytes are. The
/// mapping of a cluster is given up only where every byte of it is to be zero.
pub fn zero_bytes(m: &Mapping, address: u64, length: usize, done: usize) -> (r: ZeroStep)
    requires
        m.wf(),
    ensures
        r == zero_step(*m, address, length, done),
        r is Done <==> done >= request_len(m.geometry, address, length),
        r matches ZeroStep::Deallocate(a, n) ==> n == m.geometry.cs() && a as int % m.geometry.cs()
            == 0 && address <= a && a + n <= address + length && !m.has_backing,
        r matches ZeroStep::MarkZero(a, n) ==> n == m.geometry.cs() && a as int % m.geometry.cs()
            == 0 && address <= a && a + n <= address + length,
{
    let n: usize = m.geometry.limit_range_file(address, length);
    if done >= n {
        return ZeroStep::Done;
    }
    let a: u64 = address + done as u64;
    let len: usize = m.geometry.limit_range_cluster(a, n - done);
    proof {
        m.geometry.bounds();
        lemma_mod_bound(a as int, m.geometry.cs());
    }
    if len as u64 == m.geometry.cluster_size() {
        return if m.has_backing {
            ZeroStep::MarkZero(a, len)
        } else {
            ZeroStep::Deallocate(a, len)
        };
    }
    if m.has_backing {
        return ZeroStep::Allocate(a, len);
    }
    match m.file_offset_read(a) {
        Lookup::Invalid => ZeroStep::Invalid,
        Lookup::NeedTable(i, at) => ZeroStep::NeedTable(i, at),
        Lookup::Found(ClusterData::Plain(offset)) => ZeroStep::ZeroAt(offset, len),
        Lookup::Found(ClusterData::Unallocated) => ZeroStep::Skip(len),
        Lookup::Found(ClusterData::Zero) => ZeroStep::Skip(len),
        Lookup::Found(ClusterData::Compressed(_)) => ZeroStep::Allocate(a, len),
    }
}

/// What is skipped when a range is zeroed reads as zeroes as it is.
pub proof fn what_is_skipped_is_zero(m: Mapping, a: u64, len: usize)
    requires
        m.wf(),
        !m.has_backing,
        partial_zero(m, a, len) is Skip,
    ensures
        m.lookup(a) matches Lookup::Found(data) && source_of(m, a, data) == ReadSource::Zero,
{
}

/// How much of a hole is punched at once.
pub fn punch_chunk(remaining: u64) -> (r: usize)
    ensures
        r == (if remaining <= usize::MAX {
            remaining as int
        } else {
            usize::MAX as int
        }),
        remaining > 0 ==> 0 < r <= remaining,
        r < remaining ==> r == usize::MAX,
{
    if remaining <= usize::MAX as u64 {
        remaining as usize
    } else {
        usize::MAX
    }
}

/// A position in an image.
#[derive(Clone, Copy, Debug, PartialEq, Eq, Structural)]
pub enum SeekFrom {
    Start(u64),
    End(i64),
    Current(i64),
}

/// The position that is meant, as a number.
pub open spec fn target(pos: SeekFrom, virtual_size: u64, current: u64) -> int {
    match pos {
        SeekFrom::Start(off) => off as int,
        SeekFrom::End(off) => virtual_size + off,
        SeekFrom::Current(off) => current + off,
    }
}

/// The position that is meant cannot be worked out.
pub open spec fn unworkable(pos: SeekFrom) -> bool {
    match pos {
        SeekFrom::Start(_) => false,
        SeekFrom::End(off) => off == i64::MIN,
        SeekFrom::Current(off) => off == i64::MIN,
    }
}

/// `base` moved by `off`.
fn moved(base: u64, off: i64) -> (r: Option<u64>)
    ensures
        r == (if off == i64::MIN || base + off < 0 || base + off > u64::MAX {
            None
        } else {
            Some((base + off) as u64)
        }),
{
    if off < 0 {
        if off == i64::MIN {
            return None;
        }
        base.checked_sub((-off) as u64)
    } else {
        base.checked_add(off as u64)
    }
}

/// The new position, if it is one inside the image or at its end.
pub fn seek(pos: SeekFrom, virtual_size: u64, current: u64) -> (r: Option<u64>)
    ensures
        r == (if !unworkable(pos) && 0 <= target(pos, virtual_size, current) <= virtual_size {
            Some(target(pos, virtual_size, current) as u64)
        } else {
            None
        }),
        r == sought(pos, virtual_size, current),
{
    let new_offset = match pos {
        SeekFrom::Start(off) => Some(off),
        SeekFrom::End(off) => moved(virtual_size, off),
        SeekFrom::Current(off) => moved(current, off),
    };
    match new_offset {
        Some(o) => if o <= virtual_size {
            Some(o)
        } else {
            None
        },
        None => None,
    }
}

/// What collecting the compressed clusters of a request does next.
#[derive(Clone, Copy, Debug, PartialEq, Eq, Structural)]
pub enum Scan {
    Done,
    Invalid,
    NeedTable(usize, u64),
}

/// The compressed clusters that a read is going to need, and that are not decompressed yet.
#[derive(Debug)]
pub struct Prefetch {
    pub address: u64,
    pub count: usize,
    pub scanned: usize,
    /// The L2 entries of the clusters.
    pub pending: Vec<u64>,
}

impl Prefetch {
    /// Nothing was looked at.
    pub fn new(address: u64, count: usize) -> (r: Prefetch)
        ensures
            r.address == address,
            r.count == count,
            r.scanned == 0,
            r.pending@ == Seq::<u64>::empty(),
    {
        Prefetch { address, count, scanned: 0, pending: Vec::new() }
    }

    /// What is known of the part that was looked at: each entry on the list is that of a compressed
    /// cluster in it which is not decompressed, none is there twice, and no such cluster is missing.
    pub open spec fn wf(&self, m: Mapping, cache: ClusterCache) -> bool {
        &&& self.scanned <= request_len(m.geometry, self.address, self.count)
        &&& self.pending@.no_duplicates()
        &&& self.pending@.len() <= cache.capacity
        &&& forall|i: int|
            0 <= i < self.pending@.len() ==> !cache.has(#[trigger] self.pending@[i])
                && needed(m, self.address, self.scanned as int, self.pending@[i])
        &&& forall|d: int|
            0 <= d < self.scanned ==> (m.lookup(#[trigger] at(self.address, d)) matches Lookup::Found(
                ClusterData::Compressed(e),
            ) ==> cache.has(e) || self.pending@.contains(e))
    }

    /// Looks at the clusters of the request one after the other, until enough were found or a table
    /// is missing.
    pub fn scan(&mut self, m: &Mapping, cache: &ClusterCache) -> (r: Scan)
        requires
            m.wf(),
            cache.wf(),
            old(self).wf(*m, *cache),
        ensures
            final(self).wf(*m, *cache),
            final(self).address == old(self).address,
            final(self).count == old(self).count,
            final(self).scanned >= old(self).scanned,
            match r {
                Scan::Done => final(self).scanned == request_len(
                    m.geometry,
                    old(self).address,
                    old(self).count,
                ) || final(self).pending@.len() == cache.capacity,
                Scan::NeedTable(i, a) => final(self).scanned < request_len(
                    m.geometry,
                    old(self).address,
                    old(self).count,
                ) && m.lookup(at(old(self).address, final(self).scanned as int))
                    == Lookup::NeedTable(i, a),
                Scan::Invalid => final(self).scanned < request_len(
                    m.geometry,
                    old(self).address,
                    old(self).count,
                ) && m.lookup(at(old(self).address, final(self).scanned as int))
                    == Lookup::Invalid,
            },
    {
        let n: usize = m.geometry.limit_range_file(self.address, self.count);
        while self.scanned < n && self.pending.len() < cache.capacity
            invariant
                m.wf(),
                cache.wf(),
                self.wf(*m, *cache),
                self.address == old(self).address,
                self.count == old(self).count,
                self.scanned >= old(self).scanned,
                n == request_len(m.geometry, self.address, self.count),
                n > 0 ==> self.address + n <= m.geometry.virtual_size,
            decreases n - self.scanned,
        {
            let a: u64 = self.address + self.scanned as u64;
            let len: usize = m.geometry.limit_range_cluster(a, n - self.scanned);
            let found = m.file_offset_read(a);
            let ghost before = *self;
            proof {
                pieces_cover_the_request(m.geometry, self.address, self.count, self.scanned);
            }
            match found {
                Lookup::Invalid => {
                    return Scan::Invalid;
                },
                Lookup::NeedTable(i, at) => {
                    return Scan::NeedTable(i, at);
                },
                Lookup::Found(ClusterData::Compressed(entry)) => {
                    if !cache.contains(entry) && !listed(&self.pending, entry) {
                        self.pending.push(entry);
                        proof {
                            assert(self.pending@[before.pending@.len() as int] == entry);
                        }
                    }
                },
                Lookup::Found(_) => {},
            }
            self.scanned = self.scanned + len;
            proof {
                assert forall|i: int| 0 <= i < self.pending@.len() implies needed(
                    *m,
                    self.address,
                    self.scanned as int,
                    #[trigger] self.pending@[i],
                ) by {
                    let e = self.pending@[i];
                    if i < before.pending@.len() {
                        assert(before.pending@[i] == e);
                        let d = choose|d: int|
                            0 <= d < before.scanned && #[trigger] m.lookup(at(self.address, d))
                                == Lookup::Found(ClusterData::Compressed(e));
                        assert(m.lookup(at(self.address, d)) == Lookup::Found(
                            ClusterData::Compressed(e),
                        ));
                    } else {
                        assert(m.lookup(at(self.address, before.scanned as int)) == Lookup::Found(
                            ClusterData::Compressed(e),
                        ));
                    }
                }
                assert forall|e: u64| before.pending@.contains(e) implies self.pending@.contains(e)
                    by {
                    let i = choose|i: int| 0 <= i < before.pending@.len() && before.pending@[i] == e;
                    assert(self.pending@[i] == e);
                }
                assert forall|d: int| 0 <= d < self.scanned implies (m.lookup(
                    #[trigger] at(self.address, d),
                ) matches Lookup::Found(ClusterData::Compressed(e)) ==> cache.has(e)
                    || self.pending@.contains(e)) by {
                    if d >= before.scanned {
                        same_cluster_same_entry(*m, a, at(self.address, d), len);
                    }
                }
            }
        }
        Scan::Done
    }
}

/// One of the first `n` bytes behind `address` is in the compressed cluster of an entry.
pub open spec fn needed(m: Mapping, address: u64, n: int, entry: u64) -> bool {
    exists|d: int|
        0 <= d < n && #[trigger] m.lookup(at(address, d)) == Lookup::Found(
            ClusterData::Compressed(entry),
        )
}

/// The address `d` bytes behind `address`.
pub open spec fn at(address: u64, d: int) -> u64 {
    (address + d) as u64
}

/// Whether an entry is on a list.
fn listed(list: &Vec<u64>, entry: u64) -> (r: bool)
    ensures
        r == list@.contains(entry),
{
    let mut i: usize = 0;
    while i < list.len()
        invariant
            i <= list@.len(),
            forall|j: int| 0 <= j < i ==> list@[j] != entry,
        decreases list@.len() - i,
    {
        if list[i] == entry {
            return true;
        }
        i = i + 1;
    }
    false
}

/// Every address of a piece of a compressed cluster is looked up as that cluster.
proof fn same_cluster_same_entry(m: Mapping, a: u64, b: u64, len: usize)
    requires
        m.wf(),
        a <= b < a + len,
        a as int / m.geometry.cs() == (a + len - 1) / m.geometry.cs(),
        b < m.geometry.virtual_size,
        a < m.geometry.virtual_size,
        m.lookup(a) is Found,
    ensures
        m.lookup(b) matches Lookup::Found(ClusterData::Compressed(e)) ==> m.lookup(a)
            == Lookup::Found(ClusterData::Compressed(e)),
{
    m.geometry.bounds();
    lemma_div_is_ordered(a as int, b as int, m.geometry.cs());
    lemma_div_is_ordered(b as int, a + len - 1, m.geometry.cs());
}

/// What a read does next.
pub open spec fn read_step(m: Mapping, address: u64, count: usize, done: usize) -> ReadStep {
    let n = request_len(m.geometry, address, count);
    if done >= n {
        ReadStep::Done(n as usize)
    } else {
        let a = (address + done) as u64;
        match m.lookup(a) {
            Lookup::Invalid => ReadStep::Invalid,
            Lookup::NeedTable(i, at) => ReadStep::NeedTable(i, at),
            Lookup::Found(data) => ReadStep::Piece(
                piece_len(m.geometry, address, count, done) as usize,
                source_of(m, a, data),
            ),
        }
    }
}

/// What a write does next.
pub open spec fn write_step(
    m: Mapping,
    address: u64,
    count: usize,
    writes_data: bool,
    done: usize,
) -> WriteStep {
    let n = request_len(m.geometry, address, count);
    if done >= n {
        WriteStep::Done(n as usize)
    } else {
        let len = piece_len(m.geometry, address, count, done) as usize;
        WriteStep::Piece(
            len,
            (address + done) as u64,
            if writes_data {
                len
            } else {
                0
            },
        )
    }
}

/// A request is served as far as it lies in the image, and no further; one that begins behind the end,
/// or that goes past the last address there is, has no bytes.
pub proof fn requests_are_cut_at_the_end(g: Geometry, address: u64, count: usize)
    ensures
        0 <= request_len(g, address, count) <= count,
        address + count <= g.virtual_size ==> request_len(g, address, count) == count,
        request_len(g, address, count) > 0 ==> address + request_len(g, address, count)
            <= g.virtual_size,
        address <= g.virtual_size < address + count && address + count <= u64::MAX ==> address
            + request_len(g, address, count) == g.virtual_size,
        address > g.virtual_size || address + count > u64::MAX ==> request_len(g, address, count)
            == 0,
{
}

/// A piece ends with the request or with its cluster, whichever comes first.
pub proof fn pieces_end_with_their_cluster(g: Geometry, address: u64, count: usize, done: usize)
    requires
        g.wf(),
        done < request_len(g, address, count),
    ensures
        ({
            let n = piece_len(g, address, count, done);
            &&& 0 < n <= g.cs()
            &&& done + n == request_len(g, address, count) || (address + done + n) % g.cs() == 0
            &&& done + n <= request_len(g, address, count)
            &&& (address + done) % g.cs() + n <= g.cs()
        }),
{
    g.bounds();
    let a = address + done;
    let c = g.cs();
    let n = piece_len(g, address, count, done);
    lemma_mod_bound(a, c);
    lemma_fundamental_div_mod(a, c);
    if done + n != request_len(g, address, count) {
        let q = a / c;
        assert(c * q + c == c * (q + 1)) by (nonlinear_arith);
        assert(c * (q + 1) == (q + 1) * c + 0) by (nonlinear_arith);
        lemma_fundamental_div_mod_converse(a + n, c, q + 1, 0);
    }
}

/// A read and a write of the same bytes are cut into the same pieces, and end together; the old contents
/// of a cluster have to be kept exactly where not every byte of the piece is going to be written.
pub proof fn reads_and_writes_are_cut_alike(
    m: Mapping,
    address: u64,
    count: usize,
    writes_data: bool,
    done: usize,
)
    requires
        m.wf(),
        m.geometry.virtual_size <= u64::MAX,
    ensures
        ({
            let w = write_step(m, address, count, writes_data, done);
            let r = read_step(m, address, count, done);
            &&& w is Done <==> r is Done
            &&& w matches WriteStep::Done(n) ==> r == ReadStep::Done(n) && n <= done && n <= count
            &&& w matches WriteStep::Piece(n, a, kept) ==> {
                &&& a == address + done
                &&& 0 < n && a + n <= m.geometry.virtual_size
                &&& done + n <= count
                &&& kept == n <==> writes_data
                &&& kept == 0 <==> !writes_data
                &&& r matches ReadStep::Piece(k, _) ==> k == n
            }
            &&& r is Invalid || r is NeedTable || r is Piece <==> w is Piece
        }),
{
    if done < request_len(m.geometry, address, count) {
        pieces_cover_the_request(m.geometry, address, count, done);
        m.geometry.bounds();
    }
}

/// Bytes come from where their cluster is stored: from the file, from the decompressed cluster at
/// their place in it, from the backing file at the same address where the image has nothing of its
/// own, and zeroes otherwise.
pub proof fn bytes_come_from_their_cluster(m: Mapping, address: u64, data: ClusterData)
    requires
        m.wf(),
    ensures
        data matches ClusterData::Plain(at) ==> source_of(m, address, data) == ReadSource::Disk(at),
        data matches ClusterData::Compressed(e) ==> (source_of(m, address, data) matches
            ReadSource::Memory(k, at) && k == e && at < m.geometry.cs() && (address - at)
            % m.geometry.cs() == 0),
        data is Zero ==> source_of(m, address, data) is Zero,
        data is Unallocated && !m.has_backing ==> source_of(m, address, data) is Zero,
        data is Unallocated && m.has_backing ==> source_of(m, address, data) == ReadSource::Backing(
            address,
        ),
{
    m.geometry.bounds();
    let c = m.geometry.cs();
    lemma_mod_bound(address as int, c);
    lemma_fundamental_div_mod(address as int, c);
    let q = address as int / c;
    assert(c * q == q * c + 0) by (nonlinear_arith);
    lemma_fundamental_div_mod_converse(address - address as int % c, c, q, 0);
}

/// The position after a seek.
pub open spec fn sought(pos: SeekFrom, virtual_size: u64, current: u64) -> Option<u64> {
    if !unworkable(pos) && 0 <= target(pos, virtual_size, current) <= virtual_size {
        Some(target(pos, virtual_size, current) as u64)
    } else {
        None
    }
}

/// A position is the same wherever it is counted from: from the start, from the end or from where the
/// image is positioned now; none is outside the image, and its end is one.
pub proof fn positions_do_not_depend_on_the_origin(virtual_size: u64, current: u64, to: u64)
    requires
        virtual_size <= i64::MAX,
        current <= i64::MAX,
        to <= i64::MAX,
    ensures
        sought(SeekFrom::Start(to), virtual_size, current) is Some <==> to <= virtual_size,
        sought(SeekFrom::Start(to), virtual_size, current) matches Some(p) ==> p == to,
        sought(SeekFrom::End((to - virtual_size) as i64), virtual_size, current) == sought(
            SeekFrom::Start(to),
            virtual_size,
            current,
        ),
        sought(SeekFrom::Current((to - current) as i64), virtual_size, current) == sought(
            SeekFrom::Start(to),
            virtual_size,
            current,
        ),
        sought(SeekFrom::Current(0), virtual_size, current) is Some <==> current <= virtual_size,
        sought(SeekFrom::End(0), virtual_size, current) == Some(virtual_size),
        sought(SeekFrom::End(1), virtual_size, current) is None,
{
}

} // verus!
