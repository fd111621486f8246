//! Whole images, read and written through the decisions of the library.

use std::collections::BTreeMap;
use std::io;
use std::io::Write;

use droidvm_core::qcow;
use droidvm_core::qcow::cache::ClusterCache;
use droidvm_core::qcow::counts::{Counted, RefCounts};
use droidvm_core::qcow::decompress::{decode_chunk, decompress_cluster_into, Decompressed};
use droidvm_core::qcow::geometry;
use droidvm_core::qcow::header::QcowHeader;
use droidvm_core::qcow::map::{ClusterData, Fill, Lookup};
use droidvm_core::qcow::open;
use droidvm_core::qcow::opening::{OpenGiven, OpenNeed, OpenTurn, Opening};
use droidvm_core::qcow::place::{
    Counting, Dropping, Given, Layout, Need, Placing, Releasing, Survey, Turn, Zeroing,
};
use droidvm_core::qcow::rebuilding::{RebuildNeed, RebuildTurn, Rebuilding};
use droidvm_core::qcow::refcount::Pools;
use droidvm_core::qcow::requests;
use droidvm_core::qcow::requests::{
    Prefetch, ReadSource, ReadStep, Scan, SeekFrom, WriteStep, ZeroStep,
};
use droidvm_core::qcow::sync;
use droidvm_core::qcow::sync::{Action, Progress};
use droidvm_core::qcow::tables;
use droidvm_core::qcow::Error;

/// What an image is stored in.
trait Storage {
    fn len(&self) -> io::Result<u64>;
    fn set_len(&mut self, len: u64) -> io::Result<()>;
    fn read_exact_at(&self, buf: &mut [u8], at: u64) -> io::Result<()>;
    fn write_all_at(&mut self, buf: &[u8], at: u64) -> io::Result<()>;
    fn write_zeroes_at(&mut self, at: u64, len: u64) -> io::Result<()>;
    fn punch_hole(&mut self, at: u64, len: u64) -> io::Result<()>;
    fn sync_data(&mut self) -> io::Result<()>;
    fn sync_all(&mut self) -> io::Result<()>;
}

/// What an image can lie on top of.
trait Backing {
    fn read_exact(&mut self, buf: &mut [u8], at: u64) -> Result<(), Fail>;
    fn size(&self) -> u64;
}

/// Why an image cannot be opened or used.
#[derive(Debug)]
enum Fail {
    Qcow(Error),
    Io(io::Error),
    Invalid,
    NoSpace,
    Corrupt,
}

impl From<Error> for Fail {
    fn from(e: Error) -> Fail {
        Fail::Qcow(e)
    }
}

impl From<io::Error> for Fail {
    fn from(e: io::Error) -> Fail {
        Fail::Io(e)
    }
}

fn read_table<S: Storage>(store: &S, at: u64, entries: u64) -> io::Result<Vec<u64>> {
    let mut raw = vec![0u8; entries as usize * 8];
    store.read_exact_at(&mut raw, at)?;
    Ok(tables::read_pointer_table(&raw))
}

fn read_block<S: Storage>(store: &S, at: u64, counts: usize) -> io::Result<Vec<u16>> {
    let mut raw = vec![0u8; counts * 2];
    store.read_exact_at(&mut raw, at)?;
    Ok(tables::read_refcount_block(&raw))
}

/// Reads the header of an image.
fn read_header<S: Storage>(store: &S) -> Result<QcowHeader, Fail> {
    let mut first = vec![0u8; store.len()?.min(4096) as usize];
    store.read_exact_at(&mut first, 0)?;
    let mut header = QcowHeader::fixed_part(&first)?;
    if let Some((at, len)) = header.backing_name_range() {
        let mut name = vec![0u8; len as usize];
        store.read_exact_at(&mut name, at)?;
        header.set_backing_name(name)?;
    }
    Ok(header)
}

/// Writes the header of an image, with room for its tables behind it.
fn write_header<S: Storage>(store: &mut S, header: &QcowHeader) -> Result<(), Fail> {
    store.write_all_at(&header.to_bytes(), 0)?;
    store.write_all_at(&[0], header.tail_offset())?;
    Ok(())
}

/// Rebuilds the counts of an image from its tables.
fn rebuild_counts<S: Storage>(store: &mut S, header: &QcowHeader) -> Result<(), Fail> {
    let mut work = Rebuilding::start(header.clone());
    let mut given = OpenGiven::Size(store.len()?);
    loop {
        let need = match work.rebuild_refcounts(given) {
            RebuildTurn::Need(need) => need,
            RebuildTurn::Rebuilt => return Ok(()),
            RebuildTurn::Refused(e) => return Err(Fail::Qcow(e)),
            RebuildTurn::Unexpected => return Err(Fail::Invalid),
        };
        given = OpenGiven::Done;
        match need {
            RebuildNeed::FileSize => given = OpenGiven::Size(store.len()?),
            RebuildNeed::Table(at, n) => given = OpenGiven::Table(read_table(store, at, n)?),
            RebuildNeed::WriteHeader => write_header(store, &work.header)?,
            RebuildNeed::WriteBlock(at, i) => {
                store.write_all_at(&tables::refcount_block_bytes(&work.block(i)), at)?
            }
            RebuildNeed::WriteTable(at) => {
                store.write_all_at(&tables::pointer_table_bytes(&work.table), at)?
            }
        }
    }
}

/// An image of a disk.
struct Image<S: Storage> {
    store: S,
    header: QcowHeader,
    layout: Layout,
    position: u64,
    refs: RefCounts,
    backing: Option<Box<dyn Backing>>,
}

impl<S: Storage> Image<S> {
    /// Opens an image. What lies below it is opened where the library asks for it.
    fn open(
        mut store: S,
        read_only: bool,
        backing: Option<Box<dyn Backing>>,
    ) -> Result<Image<S>, Fail> {
        let header = read_header(&store)?;
        let mut opening = Opening::start(header, read_only);
        let mut given = OpenGiven::Done;
        loop {
            let need = match opening.step(given) {
                OpenTurn::Need(need) => need,
                OpenTurn::Opened => break,
                OpenTurn::Refused(e) => return Err(Fail::Qcow(e)),
                OpenTurn::Unexpected => return Err(Fail::Invalid),
            };
            given = match need {
                OpenNeed::Backing => OpenGiven::Done,
                OpenNeed::FileSize => OpenGiven::Size(store.len()?),
                OpenNeed::Entry(at) => OpenGiven::Entry(read_table(&store, at, 1)?[0]),
                OpenNeed::Count(at) => OpenGiven::Count(read_block(&store, at, 1)?[0]),
                OpenNeed::Rebuild => {
                    rebuild_counts(&mut store, &opening.header)?;
                    OpenGiven::Done
                }
                OpenNeed::Table(at, n) => OpenGiven::Table(read_table(&store, at, n)?),
            };
        }
        let (mapping, refs) = opening.opened.ok_or(Fail::Invalid)?;
        let header = opening.header;
        let layout = Layout {
            mapping,
            pools: Pools::new(Vec::new()),
            cached: ClusterCache::new(geometry::cluster_size(header.cluster_bits)),
        };
        let mut image = Image { store, header, layout, position: 0, refs, backing: None };
        image.set_backing(backing);
        let free = image.zero_refcount_clusters()?;
        image.layout.pools = Pools::new(free);
        Ok(image)
    }

    /// Makes a new image with that header.
    fn create(
        mut store: S,
        header: QcowHeader,
        backing: Option<Box<dyn Backing>>,
    ) -> Result<Image<S>, Fail> {
        write_header(&mut store, &header)?;
        let mut image = Image::open(store, false, backing)?;
        for address in open::reserved_clusters(&image.header) {
            image.set_refcount(address, 1)?;
        }
        Ok(image)
    }

    fn set_backing(&mut self, backing: Option<Box<dyn Backing>>) {
        self.layout.mapping.has_backing = backing.is_some();
        self.backing = backing;
    }

    fn cluster_size(&self) -> u64 {
        geometry::cluster_size(self.header.cluster_bits)
    }

    /// The clusters of the file that nothing refers to.
    fn zero_refcount_clusters(&mut self) -> Result<Vec<u64>, Fail> {
        let mut survey = Survey::start(self.store.len()?, self.cluster_size());
        loop {
            match survey.survey(&self.refs) {
                Turn::Need(need) => {
                    self.fulfil(need)?;
                }
                Turn::Go => {}
                Turn::Done(_) => return Ok(survey.avail_clusters()),
                Turn::Failed => return Err(Fail::Invalid),
            }
        }
    }

    /// Does what a step needs.
    fn fulfil(&mut self, need: Need) -> Result<Given, Fail> {
        match need {
            Need::Table(index, at) => {
                self.make_room()?;
                let raw = read_table(&self.store, at, self.layout.mapping.geometry.l2_entries())?;
                if !self.layout.mapping.take_table(index, &raw) {
                    return Err(Fail::Invalid);
                }
            }
            Need::Block(block, at) => {
                let counts = read_block(&self.store, at, self.refs.per_block)?;
                if !self.refs.take_block(block, counts) {
                    return Err(Fail::Invalid);
                }
            }
            Need::Room => self.make_room()?,
            Need::Cluster(fill) => {
                let contents = self.contents(fill)?;
                return Ok(Given::Cluster(self.get_new_cluster(contents)?));
            }
            Need::Count(at) => return Ok(Given::Count(self.refcount(at)?)),
            Need::SetCount(at, count) => self.set_refcount(at, count)?,
            Need::Release(entry) => self.release(entry)?,
            Need::Punch(at) => {
                let _ = self.store.punch_hole(at, self.cluster_size());
            }
        }
        Ok(Given::Done)
    }

    /// Takes an operation to its end.
    fn run(
        &mut self,
        mut step: impl FnMut(&mut Layout, &mut RefCounts, Given) -> Turn,
    ) -> Result<u64, Fail> {
        let mut given = Given::Done;
        loop {
            given = match step(&mut self.layout, &mut self.refs, given) {
                Turn::Need(need) => self.fulfil(need)?,
                Turn::Go => Given::Done,
                Turn::Done(n) => return Ok(n),
                Turn::Failed => return Err(Fail::Invalid),
            };
        }
    }

    fn refcount(&mut self, address: u64) -> Result<u16, Fail> {
        loop {
            match self.refs.get_cluster_refcount(address) {
                Counted::Invalid => return Err(Fail::Invalid),
                Counted::Count(n) => return Ok(n),
                Counted::NeedBlock(block, at) => {
                    self.fulfil(Need::Block(block, at))?;
                }
            }
        }
    }

    fn set_refcount(&mut self, address: u64, count: u16) -> Result<(), Fail> {
        let mut counting = Counting::start(address, count);
        self.run(|layout, refs, given| {
            counting.set_cluster_refcount(refs, &mut layout.pools, given)
        })?;
        Ok(())
    }

    fn release(&mut self, entry: u64) -> Result<(), Fail> {
        let mut releasing = Releasing::start(entry, self.header.cluster_bits);
        self.run(|layout, _, given| releasing.unref_compressed_cluster(&mut layout.pools, given))?;
        Ok(())
    }

    fn place(&mut self, address: u64, overwrite_len: usize) -> Result<u64, Fail> {
        let mut placing = Placing::start(address, overwrite_len);
        self.run(|layout, _, given| placing.file_offset_write(layout, given))
    }

    fn deallocate(&mut self, address: u64) -> Result<(), Fail> {
        let mut dropping = Dropping::start(address);
        self.run(|layout, _, given| dropping.deallocate_cluster(layout, given))?;
        Ok(())
    }

    fn mark_zero(&mut self, address: u64) -> Result<(), Fail> {
        let mut zeroing = Zeroing::start(address);
        self.run(|layout, _, given| zeroing.mark_cluster_zero(layout, given))?;
        Ok(())
    }

    fn get_new_cluster(&mut self, contents: Option<Vec<u8>>) -> Result<u64, Fail> {
        if let Some(address) = self.layout.pools.get_new_cluster() {
            match contents {
                Some(data) => self.store.write_all_at(&data, address)?,
                None => self.store.write_zeroes_at(address, self.cluster_size())?,
            }
            return Ok(address);
        }
        let (address, len) = self.refs.add_cluster_end(self.store.len()?).ok_or(Fail::NoSpace)?;
        self.store.set_len(len)?;
        if let Some(data) = contents {
            self.store.write_all_at(&data, address)?;
        }
        Ok(address)
    }

    /// What a new cluster starts out with, unless that is zeroes.
    fn contents(&mut self, fill: Fill) -> Result<Option<Vec<u8>>, Fail> {
        match fill {
            Fill::Zeroed => Ok(None),
            Fill::Backing(begin) => {
                let mut data = vec![0u8; self.cluster_size() as usize];
                self.backing.as_mut().ok_or(Fail::Invalid)?.read_exact(&mut data, begin)?;
                Ok(Some(data))
            }
            Fill::Decompress(entry) => Ok(Some(self.decompress(entry)?)),
        }
    }

    fn make_room(&mut self) -> Result<(), Fail> {
        if let Some((at, values)) = self.layout.mapping.make_room() {
            self.write_table(at, &values)?;
        }
        Ok(())
    }

    fn write_table(&mut self, at: u64, values: &Vec<u64>) -> Result<(), Fail> {
        let stored = qcow::map::stored_entries(values);
        self.store.write_all_at(&tables::pointer_table_bytes(&stored), at)?;
        Ok(())
    }

    fn read_compressed(&self, entry: u64) -> Result<Vec<u8>, Fail> {
        let (at, len) = geometry::decode_compressed_descriptor(entry, self.header.cluster_bits);
        let mut compressed = vec![0u8; len as usize];
        self.store.read_exact_at(&mut compressed, at)?;
        Ok(compressed)
    }

    fn decompress(&mut self, entry: u64) -> Result<Vec<u8>, Fail> {
        let compressed = self.read_compressed(entry)?;
        let mut out = vec![0u8; self.cluster_size() as usize];
        decompress_one(self.header.compression_type, &compressed, &mut out)?;
        Ok(out)
    }

    /// Fills a range with zeroes.
    fn zero_bytes(&mut self, address: u64, length: usize) -> Result<(), Fail> {
        let mut done = 0;
        loop {
            done += match requests::zero_bytes(&self.layout.mapping, address, length, done) {
                ZeroStep::Done => return Ok(()),
                ZeroStep::Invalid => return Err(Fail::Invalid),
                ZeroStep::NeedTable(index, at) => {
                    self.fulfil(Need::Table(index, at))?;
                    0
                }
                ZeroStep::Deallocate(at, n) => {
                    self.deallocate(at)?;
                    n
                }
                ZeroStep::MarkZero(at, n) => {
                    self.mark_zero(at)?;
                    n
                }
                ZeroStep::Allocate(at, n) => {
                    let offset = self.place(at, n)?;
                    self.store.write_zeroes_at(offset, n as u64)?;
                    n
                }
                ZeroStep::ZeroAt(offset, n) => {
                    self.store.write_zeroes_at(offset, n as u64)?;
                    n
                }
                ZeroStep::Skip(n) => n,
            };
        }
    }

    /// Gives up a range, which reads as zeroes.
    fn punch_hole(&mut self, offset: u64, length: u64) -> Result<(), Fail> {
        let mut offset = offset;
        let mut remaining = length;
        while remaining > 0 {
            let chunk = requests::punch_chunk(remaining);
            self.zero_bytes(offset, chunk)?;
            remaining -= chunk as u64;
            offset += chunk as u64;
        }
        Ok(())
    }

    /// Writes what there is room for. `None` allocates without writing.
    fn write_at(
        &mut self,
        data: Option<&[u8]>,
        count: usize,
        address: u64,
    ) -> Result<usize, Fail> {
        let mut done = 0;
        loop {
            let mapping = &self.layout.mapping;
            match requests::write_cb(mapping, address, count, data.is_some(), done) {
                WriteStep::Done(n) => return Ok(n),
                WriteStep::Piece(n, at, overwrite_len) => {
                    let offset = self.place(at, overwrite_len)?;
                    if let Some(data) = data {
                        self.store.write_all_at(&data[done..done + n], offset)?;
                    }
                    done += n;
                }
            }
        }
    }

    fn prefetch(&mut self, address: u64, count: usize) -> Result<(), Fail> {
        let mut wanted = Prefetch::new(address, count);
        loop {
            match wanted.scan(&self.layout.mapping, &self.layout.cached) {
                Scan::Done => break,
                Scan::Invalid => return Err(Fail::Invalid),
                Scan::NeedTable(index, at) => {
                    self.fulfil(Need::Table(index, at))?;
                }
            }
        }
        let mut jobs = Vec::new();
        for entry in wanted.pending {
            jobs.push((entry, self.read_compressed(entry)?));
        }
        let size = self.cluster_size() as usize;
        for (entry, cluster) in decompress_all(self.header.compression_type, size, jobs)? {
            self.layout.cached.insert_decompressed_cluster(entry, cluster);
        }
        Ok(())
    }

    /// Reads what there is.
    fn read_at(&mut self, buf: &mut [u8], address: u64) -> Result<usize, Fail> {
        self.prefetch(address, buf.len())?;
        let mut done = 0;
        loop {
            match requests::read_cb(&self.layout.mapping, address, buf.len(), done) {
                ReadStep::Done(n) => return Ok(n),
                ReadStep::Invalid => return Err(Fail::Invalid),
                ReadStep::NeedTable(index, at) => {
                    self.fulfil(Need::Table(index, at))?;
                }
                ReadStep::Piece(n, source) => {
                    let part = &mut buf[done..done + n];
                    match source {
                        ReadSource::Disk(offset) => self.store.read_exact_at(part, offset)?,
                        ReadSource::Memory(entry, from) => {
                            if !self.layout.cached.ensure_decompressed_cluster(entry) {
                                let cluster = self.decompress(entry)?;
                                self.layout.cached.insert_decompressed_cluster(entry, cluster);
                            }
                            let data = self.layout.cached.front().ok_or(Fail::Invalid)?;
                            part.copy_from_slice(&data[from..from + n]);
                        }
                        ReadSource::Backing(offset) => {
                            self.backing.as_mut().ok_or(Fail::Invalid)?.read_exact(part, offset)?
                        }
                        ReadSource::Zero => part.fill(0),
                    }
                    done += n;
                }
            }
        }
    }

    /// Brings the file up to date.
    fn sync_caches(&mut self) -> Result<(), Fail> {
        let mut progress = Progress::Tables;
        while let Some((action, next)) =
            sync::sync_caches(&self.layout.mapping, &self.refs, progress)
        {
            progress = next;
            match action {
                Action::WriteTable(index, at) => {
                    let values = self.layout.mapping.table_values(index).ok_or(Fail::Invalid)?;
                    let values = values.clone();
                    self.write_table(at, &values)?;
                }
                Action::WriteBlock(block, at) => {
                    let counts = self.refs.block_counts(block).ok_or(Fail::Invalid)?;
                    self.store.write_all_at(&tables::refcount_block_bytes(counts), at)?;
                }
                Action::SyncAll => self.store.sync_all()?,
                Action::WriteL1 => {
                    let values = self.layout.mapping.l1_table.clone();
                    self.write_table(self.header.l1_table_offset, &values)?;
                }
                Action::WriteRefcountTable => {
                    let raw = tables::pointer_table_bytes(&self.refs.table);
                    self.store.write_all_at(&raw, self.header.refcount_table_offset)?;
                }
                Action::SyncData => self.store.sync_data()?,
                Action::Punch => {
                    for host in self.layout.pools.take_punched() {
                        let _ = self.store.punch_hole(host, self.cluster_size());
                    }
                }
            }
            sync::performed(&mut self.layout.mapping, &mut self.refs, action);
        }
        Ok(())
    }

    /// Brings the file up to date; what nothing refers to can be used again.
    fn fsync(&mut self) -> Result<(), Fail> {
        self.sync_caches()?;
        self.layout.pools.synced();
        Ok(())
    }

    /// Moves the position.
    fn seek(&mut self, pos: requests::SeekFrom) -> Result<u64, Fail> {
        match requests::seek(pos, self.header.size, self.position) {
            Some(at) => {
                self.position = at;
                Ok(at)
            }
            None => Err(Fail::Invalid),
        }
    }

    /// Reads at the position, which moves.
    fn read(&mut self, buf: &mut [u8]) -> Result<usize, Fail> {
        let n = self.read_at(buf, self.position)?;
        self.position += n as u64;
        Ok(n)
    }

    /// Writes at the position, which moves.
    fn write(&mut self, data: &[u8]) -> Result<usize, Fail> {
        let n = self.write_at(Some(data), data.len(), self.position)?;
        self.position += n as u64;
        Ok(n)
    }
}

impl<S: Storage> Backing for Image<S> {
    fn read_exact(&mut self, buf: &mut [u8], at: u64) -> Result<(), Fail> {
        if self.read_at(buf, at)? == buf.len() {
            Ok(())
        } else {
            Err(Fail::Invalid)
        }
    }

    fn size(&self) -> u64 {
        self.header.size
    }
}

fn decompress_one(compression_type: u8, compressed: &[u8], out: &mut [u8]) -> Result<(), Fail> {
    match decompress_cluster_into(compression_type, compressed, out) {
        Decompressed::Done => Ok(()),
        Decompressed::Failed | Decompressed::NeedZstd => Err(Fail::Corrupt),
    }
}

fn decompress_all(
    compression_type: u8,
    size: usize,
    jobs: Vec<(u64, Vec<u8>)>,
) -> Result<Vec<(u64, Vec<u8>)>, Fail> {
    let chunk = match decode_chunk(jobs.len(), 4) {
        Some(n) => n,
        None => jobs.len().max(1),
    };
    let mut done = Vec::new();
    for part in jobs.chunks(chunk) {
        for (entry, compressed) in part {
            let mut out = vec![0u8; size];
            decompress_one(compression_type, compressed, &mut out)?;
            done.push((*entry, out));
        }
    }
    Ok(done)
}

const PAGE: u64 = 0x1_0000;

/// A file in memory, most of which is not there.
struct Sparse {
    pages: BTreeMap<u64, Vec<u8>>,
    len: u64,
}

impl Sparse {
    fn new() -> Sparse {
        Sparse { pages: BTreeMap::new(), len: 0 }
    }
}

impl Storage for Sparse {
    fn len(&self) -> io::Result<u64> {
        Ok(self.len)
    }

    fn set_len(&mut self, len: u64) -> io::Result<()> {
        self.len = len;
        Ok(())
    }

    fn read_exact_at(&self, buf: &mut [u8], at: u64) -> io::Result<()> {
        let end = at.checked_add(buf.len() as u64);
        if end.map(|e| e > self.len).unwrap_or(true) {
            return Err(io::Error::from(io::ErrorKind::UnexpectedEof));
        }
        let mut done = 0usize;
        while done < buf.len() {
            let pos = at + done as u64;
            let from = (pos % PAGE) as usize;
            let n = (PAGE as usize - from).min(buf.len() - done);
            match self.pages.get(&(pos / PAGE)) {
                Some(page) => buf[done..done + n].copy_from_slice(&page[from..from + n]),
                None => buf[done..done + n].fill(0),
            }
            done += n;
        }
        Ok(())
    }

    fn write_all_at(&mut self, buf: &[u8], at: u64) -> io::Result<()> {
        let mut done = 0usize;
        while done < buf.len() {
            let pos = at + done as u64;
            let from = (pos % PAGE) as usize;
            let n = (PAGE as usize - from).min(buf.len() - done);
            let page = self.pages.entry(pos / PAGE).or_insert_with(|| vec![0; PAGE as usize]);
            page[from..from + n].copy_from_slice(&buf[done..done + n]);
            done += n;
        }
        self.len = self.len.max(at + buf.len() as u64);
        Ok(())
    }

    fn write_zeroes_at(&mut self, at: u64, len: u64) -> io::Result<()> {
        if at % PAGE == 0 && len == PAGE {
            self.pages.remove(&(at / PAGE));
            self.len = self.len.max(at + len);
            return Ok(());
        }
        self.write_all_at(&vec![0; len as usize], at)
    }

    fn punch_hole(&mut self, at: u64, len: u64) -> io::Result<()> {
        self.write_zeroes_at(at, len)
    }

    fn sync_data(&mut self) -> io::Result<()> {
        Ok(())
    }

    fn sync_all(&mut self) -> io::Result<()> {
        Ok(())
    }
}

/// A plain file beneath an image.
struct Flat {
    bytes: Vec<u8>,
}

impl Backing for Flat {
    fn read_exact(&mut self, buf: &mut [u8], at: u64) -> Result<(), Fail> {
        let at = at as usize;
        if at + buf.len() > self.bytes.len() {
            return Err(Fail::Invalid);
        }
        buf.copy_from_slice(&self.bytes[at..at + buf.len()]);
        Ok(())
    }

    fn size(&self) -> u64 {
        self.bytes.len() as u64
    }
}

fn valid_header() -> Vec<u8> {
    vec![
        0x51u8, 0x46, 0x49, 0xfb, // magic
        0x00, 0x00, 0x00, 0x03, // version
        0x00, 0x00, 0x00, 0x00, 0x00, 0x00, 0x00, 0x00, // backing file offset
        0x00, 0x00, 0x00, 0x00, // backing file size
        0x00, 0x00, 0x00, 0x10, // cluster_bits
        0x00, 0x00, 0x00, 0x20, 0x00, 0x00, 0x00, 0x00, // size
        0x00, 0x00, 0x00, 0x00, // crypt method
        0x00, 0x00, 0x01, 0x00, // L1 size
        0x00, 0x00, 0x00, 0x00, 0x00, 0x04, 0x00, 0x00, // L1 table offset
        0x00, 0x00, 0x00, 0x00, 0x00, 0x01, 0x00, 0x00, // refcount table offset
        0x00, 0x00, 0x00, 0x03, // refcount table clusters
        0x00, 0x00, 0x00, 0x00, // nb snapshots
        0x00, 0x00, 0x00, 0x00, 0x00, 0x04, 0x00, 0x00, // snapshots offset
        0x00, 0x00, 0x00, 0x00, 0x00, 0x00, 0x00, 0x00, // incompatible_features
        0x00, 0x00, 0x00, 0x00, 0x00, 0x00, 0x00, 0x00, // compatible_features
        0x00, 0x00, 0x00, 0x00, 0x00, 0x00, 0x00, 0x00, // autoclear_features
        0x00, 0x00, 0x00, 0x04, // refcount_order
        0x00, 0x00, 0x00, 0x68, // header_length
    ]
}

fn test_huge_header() -> Vec<u8> {
    vec![
        0x51, 0x46, 0x49, 0xfb, // magic
        0x00, 0x00, 0x00, 0x03, // version
        0x00, 0x00, 0x00, 0x00, 0x00, 0x00, 0x00, 0x00, // backing file offset
        0x00, 0x00, 0x00, 0x00, // backing file size
        0x00, 0x00, 0x00, 0x09, // cluster_bits
        0x01, 0x00, 0x00, 0x00, 0x00, 0x00, 0x00, 0x10, // size
        0x00, 0x00, 0x00, 0x00, // crypt method
        0x00, 0x00, 0x01, 0x00, // L1 size
        0x00, 0x00, 0x00, 0x00, 0x00, 0x04, 0x00, 0x00, // L1 table offset
        0x00, 0x00, 0x00, 0x00, 0x00, 0x01, 0x00, 0x00, // refcount table offset
        0x00, 0x00, 0x00, 0x03, // refcount table clusters
        0x00, 0x00, 0x00, 0x00, // nb snapshots
        0x00, 0x00, 0x00, 0x00, 0x00, 0x04, 0x00, 0x00, // snapshots offset
        0x00, 0x00, 0x00, 0x00, 0x00, 0x00, 0x00, 0x00, // incompatible_features
        0x00, 0x00, 0x00, 0x00, 0x00, 0x00, 0x00, 0x00, // compatible_features
        0x00, 0x00, 0x00, 0x00, 0x00, 0x00, 0x00, 0x00, // autoclear_features
        0x00, 0x00, 0x00, 0x04, // refcount_order
        0x00, 0x00, 0x00, 0x68, // header_length
    ]
}

fn basic_file(header: &[u8]) -> Sparse {
    let mut disk_file = Sparse::new();
    disk_file.write_all_at(header, 0).unwrap();
    disk_file.set_len(0x8000_0000).unwrap();
    disk_file
}

fn from(disk_file: Sparse) -> Result<Image<Sparse>, Fail> {
    Image::open(disk_file, false, None)
}

fn default_file(size: u64) -> Image<Sparse> {
    let header = QcowHeader::create_for_size_and_path(size, None).unwrap();
    Image::create(Sparse::new(), header, None).unwrap()
}

fn write_all_at(qcow: &mut Image<Sparse>, data: &[u8], offset: u64) -> Result<(), Fail> {
    let n = qcow.write_at(Some(data), data.len(), offset)?;
    assert_eq!(n, data.len());
    Ok(())
}

fn read_exact_at(qcow: &mut Image<Sparse>, data: &mut [u8], offset: u64) -> Result<(), Fail> {
    let n = qcow.read_at(data, offset)?;
    assert_eq!(n, data.len());
    Ok(())
}

#[test]
fn default_header() {
    let header = QcowHeader::create_for_size_and_path(0x10_0000, None);
    let mut disk_file = Sparse::new();
    write_header(&mut disk_file, &header.expect("Failed to create header."))
        .expect("Failed to write header to shm.");
    from(disk_file).map(|_| ()).expect("Failed to create Qcow from default Header");
}

fn open_with_incompatible_features(features: u64) -> Result<Image<Sparse>, Fail> {
    let mut header =
        QcowHeader::create_for_size_and_path(0x10_0000, None).expect("Failed to create header.");
    header.incompatible_features = features;
    let mut disk_file = Sparse::new();
    write_header(&mut disk_file, &header).expect("Failed to write header.");
    from(disk_file)
}

#[test]
fn rejects_unsupported_incompatible_feature() {
    let extended_l2 = 1 << 4;
    match open_with_incompatible_features(extended_l2) {
        Err(Fail::Qcow(Error::UnsupportedIncompatibleFeatures(bits))) => {
            assert_eq!(bits, extended_l2)
        }
        other => panic!("expected UnsupportedIncompatibleFeatures, got {:?}", other.map(|_| ())),
    }
}

#[test]
fn rejects_compression_feature_mismatch() {
    match open_with_incompatible_features(qcow::INCOMPATIBLE_FEATURES_COMPRESSION) {
        Err(Fail::Qcow(Error::UnsupportedCompressionFeatureMismatch { .. })) => {}
        other => {
            panic!("expected UnsupportedCompressionFeatureMismatch, got {:?}", other.map(|_| ()))
        }
    }
}

#[test]
fn tolerates_dirty_incompatible_feature() {
    open_with_incompatible_features(qcow::INCOMPATIBLE_FEATURES_DIRTY)
        .map(|_| ())
        .expect("dirty image should open after a refcount rebuild");
}

#[test]
fn header_read() {
    let disk_file = basic_file(&valid_header());
    let mut bytes = vec![0u8; 0x1000];
    disk_file.read_exact_at(&mut bytes, 0).unwrap();
    QcowHeader::new(&bytes).map(|_| ()).expect("Failed to create Header.");
    read_header(&disk_file).map(|_| ()).expect("Failed to create Header.");
}

#[test]
fn header_with_backing() {
    let header = QcowHeader::create_for_size_and_path(0x10_0000, Some("/my/path/to/a/file"))
        .expect("Failed to create header.");
    let mut disk_file = Vec::new();
    header.write_to(&mut disk_file);
    let read = QcowHeader::new(&disk_file).expect("Failed to create header.");
    assert_eq!(header.backing_file_path, Some(String::from("/my/path/to/a/file")));
    assert_eq!(read.backing_file_path, header.backing_file_path);
}

#[test]
fn invalid_magic() {
    let invalid_header = vec![0x51u8, 0x46, 0x4a, 0xfb];
    let disk_file = basic_file(&invalid_header);
    read_header(&disk_file).map(|_| ()).expect_err("Invalid header worked.");
    let mut bytes = vec![0u8; 0x1000];
    disk_file.read_exact_at(&mut bytes, 0).unwrap();
    assert!(matches!(QcowHeader::new(&bytes), Err(Error::InvalidMagic)));
}

#[test]
fn invalid_refcount_order() {
    let mut header = valid_header();
    header[99] = 2;
    from(basic_file(&header)).map(|_| ()).expect_err("Invalid refcount order worked.");
}

#[test]
fn snapshots_rejected_when_writable() {
    let mut header = valid_header();
    header[63] = 1;
    from(basic_file(&header))
        .map(|_| ())
        .expect_err("Image with internal snapshots opened for writing.");
}

#[test]
fn snapshots_allowed_when_read_only() {
    let mut header = valid_header();
    header[63] = 1;
    Image::open(basic_file(&header), true, None)
        .map(|_| ())
        .expect("Read-only image with internal snapshots rejected.");
}

#[test]
fn invalid_cluster_bits() {
    let mut header = valid_header();
    header[23] = 3;
    from(basic_file(&header)).map(|_| ()).expect_err("Failed to create file.");
}

#[test]
fn test_header_huge_file() {
    from(basic_file(&test_huge_header())).map(|_| ()).expect_err("Failed to create file.");
}

#[test]
fn test_header_excessive_file_size_rejected() {
    let mut header = valid_header();
    header[24..32].copy_from_slice(&[0xff, 0xff, 0xff, 0xff, 0xff, 0xff, 0xff, 0x1e]);
    from(basic_file(&header)).map(|_| ()).expect_err("Failed to create file.");
}

#[test]
fn test_huge_l1_table() {
    let mut header = valid_header();
    header[36] = 0x12;
    from(basic_file(&header)).map(|_| ()).expect_err("Failed to create file.");
}

#[test]
fn test_header_1_tb_file_min_cluster() {
    let mut header = test_huge_header();
    header[24] = 0;
    header[26] = 1;
    header[31] = 0;
    from(basic_file(&header)).map(|_| ()).expect_err("Failed to create file.");
}

#[test]
fn test_header_1_tb_file() {
    let mut header = test_huge_header();
    header[24] = 0;
    header[26] = 1;
    header[31] = 0;
    header[23] = 16;
    let mut qcow = from(basic_file(&header)).map_err(|e| format!("{:?}", e)).unwrap();
    let value = 0x0000_0040_3f00_ffffu64;
    write_all_at(&mut qcow, &value.to_le_bytes(), 0x100_0000_0000 - 8)
        .expect("failed to write data");
    let mut back = [0u8; 8];
    read_exact_at(&mut qcow, &mut back, 0x100_0000_0000 - 8).unwrap();
    assert_eq!(u64::from_le_bytes(back), value);
}

#[test]
fn test_header_huge_num_refcounts() {
    let mut header = valid_header();
    header[56..60].copy_from_slice(&[0x02, 0x00, 0xe8, 0xff]);
    from(basic_file(&header))
        .map(|_| ())
        .expect_err("Created disk with excessive refcount clusters");
}

#[test]
fn test_header_huge_refcount_offset() {
    let mut header = valid_header();
    header[48..56].copy_from_slice(&[0x00, 0x00, 0x09, 0x00, 0x00, 0x00, 0x02, 0x00]);
    from(basic_file(&header))
        .map(|_| ())
        .expect_err("Created disk with excessive refcount offset");
}

#[test]
fn write_read_start() {
    let mut q = from(basic_file(&valid_header())).unwrap_or_else(|e| panic!("{:?}", e));
    write_all_at(&mut q, b"test first bytes", 0).expect("Failed to write test string.");
    let mut buf = [0u8; 4];
    read_exact_at(&mut q, &mut buf, 0).expect("Failed to read.");
    assert_eq!(&buf, b"test");
}

#[test]
fn write_read_start_backing() {
    let mut backing = from(basic_file(&valid_header())).unwrap_or_else(|e| panic!("{:?}", e));
    write_all_at(&mut backing, b"test first bytes", 0).expect("Failed to write test string.");
    let mut buf = [0u8; 4];
    let mut wrapping = from(basic_file(&valid_header())).unwrap_or_else(|e| panic!("{:?}", e));
    wrapping.set_backing(Some(Box::new(backing)));
    read_exact_at(&mut wrapping, &mut buf, 0).expect("Failed to read.");
    assert_eq!(&buf, b"test");
}

#[test]
fn write_read_start_backing_overlap() {
    let mut backing = from(basic_file(&valid_header())).unwrap_or_else(|e| panic!("{:?}", e));
    write_all_at(&mut backing, b"test first bytes", 0).expect("Failed to write test string.");
    let mut wrapping = from(basic_file(&valid_header())).unwrap_or_else(|e| panic!("{:?}", e));
    wrapping.set_backing(Some(Box::new(backing)));
    write_all_at(&mut wrapping, b"TEST", 0).expect("Failed to write second test string.");
    let mut buf = [0u8; 10];
    read_exact_at(&mut wrapping, &mut buf, 0).expect("Failed to read.");
    assert_eq!(&buf, b"TEST first");
}

#[test]
fn offset_write_read() {
    let mut q = from(basic_file(&valid_header())).unwrap_or_else(|e| panic!("{:?}", e));
    let b = [0x55u8; 0x1000];
    write_all_at(&mut q, &b, 0xfff2000).expect("Failed to write test string.");
    let mut buf = [0u8; 4];
    read_exact_at(&mut q, &mut buf, 0xfff2000).expect("Failed to read.");
    assert_eq!(buf[0], 0x55);
}

#[test]
fn write_zeroes_read() {
    let mut q = from(basic_file(&valid_header())).unwrap_or_else(|e| panic!("{:?}", e));
    let b = [0x55u8; 0x1000];
    write_all_at(&mut q, &b, 0xfff2000).expect("Failed to write test string.");
    q.punch_hole(0xfff2000, 0x200).expect("Failed to write zeroes.");
    let mut buf = [0u8; 0x1000];
    read_exact_at(&mut q, &mut buf, 0xfff2000).expect("Failed to read.");
    assert_eq!(buf[0], 0);
    assert_eq!(buf[0x1FF], 0);
    assert_eq!(buf[0x200], 0x55);
    assert_eq!(buf[0xFFF], 0x55);
}

#[test]
fn write_zeroes_full_cluster() {
    const CHUNK_SIZE: usize = 4096 * 2 + 512;
    let mut q = from(basic_file(&valid_header())).unwrap_or_else(|e| panic!("{:?}", e));
    let b = [0x55u8; CHUNK_SIZE];
    write_all_at(&mut q, &b, 0).expect("Failed to write test string.");
    q.punch_hole(0, CHUNK_SIZE as u64).expect("Failed to write zeroes.");
    let mut buf = [0u8; CHUNK_SIZE];
    read_exact_at(&mut q, &mut buf, 0).expect("Failed to read.");
    assert_eq!(buf[0], 0);
    assert_eq!(buf[CHUNK_SIZE - 1], 0);
}

#[test]
fn write_zeroes_backing() {
    let mut backing = from(basic_file(&valid_header())).unwrap_or_else(|e| panic!("{:?}", e));
    let b = [0x55u8; 0x1000];
    write_all_at(&mut backing, &b, 0xfff2000).expect("Failed to write test string.");
    let mut wrapping = from(basic_file(&valid_header())).unwrap_or_else(|e| panic!("{:?}", e));
    wrapping.set_backing(Some(Box::new(backing)));
    wrapping.punch_hole(0xfff2000, 0x200).expect("Failed to write zeroes.");
    let mut buf = [0u8; 0x1000];
    read_exact_at(&mut wrapping, &mut buf, 0xfff2000).expect("Failed to read.");
    assert_eq!(buf[0], 0);
    assert_eq!(buf[0x1FF], 0);
    assert_eq!(buf[0x200], 0x55);
    assert_eq!(buf[0xFFF], 0x55);
}

#[test]
fn test_header() {
    let q = from(basic_file(&valid_header())).unwrap_or_else(|e| panic!("{:?}", e));
    assert_eq!(q.header.size, 0x20_0000_0000);
}

#[test]
fn read_small_buffer() {
    let mut q = from(basic_file(&valid_header())).unwrap_or_else(|e| panic!("{:?}", e));
    let mut b = [5u8; 16];
    read_exact_at(&mut q, &mut b, 1000).expect("Failed to read.");
    assert_eq!(0, b[0]);
    assert_eq!(0, b[15]);
}

/// What making a file system on a disk reads and writes.
const TRANSFERS: &[(bool, u64)] = &[
    (false, 0xfff0000),
    (false, 0xfffe000),
    (false, 0x0),
    (false, 0x1000),
    (false, 0xffff000),
    (false, 0xffdf000),
    (false, 0xfff8000),
    (false, 0xffe0000),
    (false, 0xffce000),
    (false, 0xffb6000),
    (false, 0xffab000),
    (false, 0xffa4000),
    (false, 0xff8e000),
    (false, 0xff86000),
    (false, 0xff84000),
    (false, 0xff89000),
    (false, 0xfe7e000),
    (false, 0x100000),
    (false, 0x3000),
    (false, 0x7000),
    (false, 0xf000),
    (false, 0x2000),
    (false, 0x4000),
    (false, 0x5000),
    (false, 0x6000),
    (false, 0x8000),
    (false, 0x9000),
    (false, 0xa000),
    (false, 0xb000),
    (false, 0xc000),
    (false, 0xd000),
    (false, 0xe000),
    (false, 0x10000),
    (false, 0x11000),
    (false, 0x12000),
    (false, 0x13000),
    (false, 0x14000),
    (false, 0x15000),
    (false, 0x16000),
    (false, 0x17000),
    (false, 0x18000),
    (false, 0x19000),
    (false, 0x1a000),
    (false, 0x1b000),
    (false, 0x1c000),
    (false, 0x1d000),
    (false, 0x1e000),
    (false, 0x1f000),
    (false, 0x21000),
    (false, 0x22000),
    (false, 0x24000),
    (false, 0x40000),
    (false, 0x0),
    (false, 0x3000),
    (false, 0x7000),
    (false, 0x0),
    (false, 0x1000),
    (false, 0x2000),
    (false, 0x3000),
    (false, 0x0),
    (false, 0x449000),
    (false, 0x48000),
    (false, 0x48000),
    (false, 0x448000),
    (false, 0x44a000),
    (false, 0x48000),
    (false, 0x48000),
    (true, 0x0),
    (true, 0x448000),
    (true, 0x449000),
    (true, 0x44a000),
    (true, 0xfff0000),
    (true, 0xfff1000),
    (true, 0xfff2000),
    (true, 0xfff3000),
    (true, 0xfff4000),
    (true, 0xfff5000),
    (true, 0xfff6000),
    (true, 0xfff7000),
    (true, 0xfff8000),
    (true, 0xfff9000),
    (true, 0xfffa000),
    (true, 0xfffb000),
    (true, 0xfffc000),
    (true, 0xfffd000),
    (true, 0xfffe000),
    (true, 0xffff000),
];

#[test]
fn replay_ext4() {
    let mut q = from(basic_file(&valid_header())).unwrap_or_else(|e| panic!("{:?}", e));
    const BUF_SIZE: usize = 0x1000;
    let mut b = [0u8; BUF_SIZE];
    for (write, addr) in TRANSFERS {
        if *write {
            write_all_at(&mut q, &b, *addr).expect("Failed to write.");
        } else {
            read_exact_at(&mut q, &mut b, *addr).expect("Failed to read.");
        }
    }
}

#[test]
fn combo_write_read() {
    let mut qcow_file = default_file(1024 * 1024 * 1024 * 256);
    const NUM_BLOCKS: usize = 55;
    const BLOCK_SIZE: usize = 0x1_0000;
    const OFFSET: u64 = 0x1_0000_0020;
    let data = [0x55u8; BLOCK_SIZE];
    let mut readback = [0u8; BLOCK_SIZE];
    for i in 0..NUM_BLOCKS {
        let seek_offset = OFFSET + (i as u64) * (BLOCK_SIZE as u64);
        write_all_at(&mut qcow_file, &data, seek_offset).expect("Failed to write test data.");
        read_exact_at(&mut qcow_file, &mut readback, seek_offset).expect("Failed to read.");
        for (orig, read) in data.iter().zip(readback.iter()) {
            assert_eq!(orig, read);
        }
    }
    read_exact_at(&mut qcow_file, &mut readback, 0).expect("Failed to read.");
    for read in readback.iter() {
        assert_eq!(*read, 0);
    }
    for i in 0..NUM_BLOCKS {
        let seek_offset = OFFSET + (i as u64) * (BLOCK_SIZE as u64);
        read_exact_at(&mut qcow_file, &mut readback, seek_offset).expect("Failed to read.");
        for (orig, read) in data.iter().zip(readback.iter()) {
            assert_eq!(orig, read);
        }
    }
    for addr in qcow_file.zero_refcount_clusters().unwrap() {
        assert!(
            qcow_file.layout.pools.avail_clusters.contains(&addr)
                || qcow_file.layout.pools.unref_clusters.contains(&addr),
            "refcount-0 cluster {:#x} is not tracked for reuse",
            addr
        );
    }
}

#[test]
fn rebuild_refcounts() {
    let mut disk_file = basic_file(&valid_header());
    let header = read_header(&disk_file).expect("Failed to create Header.");
    rebuild_counts(&mut disk_file, &header).expect("Failed to rebuild recounts.");
    // The header is counted once, and the tables are not handed out.
    let image = from(disk_file).unwrap_or_else(|e| panic!("{:?}", e));
    assert!(!image.layout.pools.avail_clusters.contains(&0));
    assert!(!image.layout.pools.avail_clusters.contains(&0x4_0000));
}

#[test]
fn nested_qcow() {
    let level0 = Flat { bytes: Vec::new() };
    let header = QcowHeader::create_for_size_and_path(level0.size(), Some("backing")).unwrap();
    let level1 = Image::create(Sparse::new(), header, Some(Box::new(level0)))
        .unwrap_or_else(|e| panic!("{:?}", e));
    let header = QcowHeader::create_for_size_and_path(level1.size(), Some("qcow.l1")).unwrap();
    Image::create(Sparse::new(), header, Some(Box::new(level1)))
        .map(|_| ())
        .expect("failed to create level2 qcow file");
}

#[test]
fn io_seek() {
    let mut qcow_file = default_file(1024 * 1024 * 10);
    assert_eq!(qcow_file.position, 0);
    assert_eq!(qcow_file.seek(SeekFrom::Start(1024 * 1024)).unwrap(), 1024 * 1024);
    qcow_file
        .seek(SeekFrom::Current(-(1024 * 1024 + 1)))
        .expect_err("negative offset seek should fail");
    assert_eq!(qcow_file.position, 1024 * 1024);
    assert_eq!(qcow_file.seek(SeekFrom::End(-1)).unwrap(), 1024 * 1024 * 10 - 1);
    assert_eq!(qcow_file.seek(SeekFrom::End(0)).unwrap(), 1024 * 1024 * 10);
    qcow_file.seek(SeekFrom::End(1)).expect_err("seek past EOF should fail");
}

#[test]
fn io_write_read() {
    let mut qcow_file = default_file(1024 * 1024 * 10);
    const BLOCK_SIZE: usize = 0x1_0000;
    let data_55 = [0x55u8; BLOCK_SIZE];
    let data_aa = [0xaau8; BLOCK_SIZE];
    let mut readback = [0u8; BLOCK_SIZE];

    assert_eq!(qcow_file.write(&data_55).unwrap(), BLOCK_SIZE);
    assert_eq!(qcow_file.position, BLOCK_SIZE as u64);

    assert_eq!(qcow_file.write(&data_aa).unwrap(), BLOCK_SIZE);
    assert_eq!(qcow_file.position, BLOCK_SIZE as u64 * 2);

    assert_eq!(
        qcow_file.seek(SeekFrom::Current(-(BLOCK_SIZE as i64))).unwrap(),
        BLOCK_SIZE as u64
    );
    assert_eq!(qcow_file.read(&mut readback).unwrap(), BLOCK_SIZE);
    assert_eq!(qcow_file.position, BLOCK_SIZE as u64 * 2);
    for (orig, read) in data_aa.iter().zip(readback.iter()) {
        assert_eq!(orig, read);
    }

    qcow_file.seek(SeekFrom::Start(0)).unwrap();
    assert_eq!(qcow_file.read(&mut readback).unwrap(), BLOCK_SIZE);
    for (orig, read) in data_55.iter().zip(readback.iter()) {
        assert_eq!(orig, read);
    }

    qcow_file.seek(SeekFrom::Start(BLOCK_SIZE as u64 / 2)).unwrap();
    assert_eq!(qcow_file.read(&mut readback).unwrap(), BLOCK_SIZE);
    for (orig, read) in data_55[BLOCK_SIZE / 2..]
        .iter()
        .chain(data_aa[..BLOCK_SIZE / 2].iter())
        .zip(readback.iter())
    {
        assert_eq!(orig, read);
    }
}

#[test]
fn what_was_synced_is_there_after_reopening() {
    let mut image = default_file(1024 * 1024 * 64);
    write_all_at(&mut image, b"kept", 0x12_3456).unwrap();
    write_all_at(&mut image, &[7u8; 0x3_0000], 0x200_0000).unwrap();
    image.punch_hole(0x201_0000, 0x1_0000).unwrap();
    image.fsync().unwrap();
    let store = Sparse { pages: image.store.pages.clone(), len: image.store.len };
    let mut again = from(store).unwrap_or_else(|e| panic!("{:?}", e));
    let mut buf = [0u8; 4];
    read_exact_at(&mut again, &mut buf, 0x12_3456).unwrap();
    assert_eq!(&buf, b"kept");
    let mut run = vec![9u8; 0x3_0000];
    read_exact_at(&mut again, &mut run, 0x200_0000).unwrap();
    assert!(run[..0x1_0000].iter().all(|b| *b == 7));
    assert!(run[0x1_0000..0x2_0000].iter().all(|b| *b == 0));
    assert!(run[0x2_0000..].iter().all(|b| *b == 7));
    // The counts agree with the tables: a rebuild finds the same free clusters.
    let mut free = again.layout.pools.avail_clusters.clone();
    free.sort();
    for addr in again.zero_refcount_clusters().unwrap() {
        assert!(free.contains(&addr));
    }
}

#[test]
fn more_tables_than_fit_in_memory() {
    // Each table covers 512 MiB of the guest.
    let mut image = default_file(1024 * 1024 * 1024 * 100);
    for i in 0..150u64 {
        write_all_at(&mut image, &i.to_le_bytes(), i * 0x2000_0000).unwrap();
    }
    assert!(image.layout.mapping.tables.len() <= qcow::map::MAX_TABLES);
    for i in 0..150u64 {
        let mut buf = [0u8; 8];
        read_exact_at(&mut image, &mut buf, i * 0x2000_0000).unwrap();
        assert_eq!(u64::from_le_bytes(buf), i);
    }
    image.fsync().unwrap();
    let store = Sparse { pages: image.store.pages.clone(), len: image.store.len };
    let mut again = from(store).unwrap_or_else(|e| panic!("{:?}", e));
    for i in 0..150u64 {
        let mut buf = [0u8; 8];
        read_exact_at(&mut again, &mut buf, i * 0x2000_0000).unwrap();
        assert_eq!(u64::from_le_bytes(buf), i);
    }
}

fn deflated(data: &[u8]) -> Vec<u8> {
    let mut e = flate2::write::DeflateEncoder::new(Vec::new(), flate2::Compression::default());
    e.write_all(data).unwrap();
    e.finish().unwrap()
}

/// An image with a compressed cluster at the start of the guest's disk.
fn compressed_image(contents: &[u8]) -> Image<Sparse> {
    let mut image = default_file(1024 * 1024 * 64);
    // A table, and a cluster that will hold the compressed data.
    write_all_at(&mut image, &[1], 0).unwrap();
    image.fsync().unwrap();
    let host = match image.layout.mapping.file_offset_read(0) {
        Lookup::Found(ClusterData::Plain(at)) => at,
        other => panic!("{:?}", other),
    };
    let payload = deflated(contents);
    image.store.write_all_at(&payload, host).unwrap();
    let sectors = (payload.len() as u64).div_ceil(512);
    let shift = 62 - (image.header.cluster_bits - 8);
    let entry = (1u64 << 62) | ((sectors - 1) << shift) | host;
    let table = image.layout.mapping.l1_table[0];
    let mut store = Sparse { pages: image.store.pages.clone(), len: image.store.len };
    store.write_all_at(&entry.to_be_bytes(), table).unwrap();
    from(store).unwrap_or_else(|e| panic!("{:?}", e))
}

#[test]
fn compressed_clusters_are_read() {
    let contents: Vec<u8> = (0..0x1_0000u32).map(|i| (i % 251) as u8).collect();
    let mut image = compressed_image(&contents);
    let mut buf = vec![0u8; 0x1_0000];
    read_exact_at(&mut image, &mut buf, 0).unwrap();
    assert_eq!(buf, contents);
    let mut part = [0u8; 5];
    read_exact_at(&mut image, &mut part, 300).unwrap();
    assert_eq!(&part[..], &contents[300..305]);
}

#[test]
fn a_short_compressed_cluster_ends_in_zeroes() {
    let mut image = compressed_image(&[0x5a; 1000]);
    let mut buf = vec![1u8; 0x1_0000];
    read_exact_at(&mut image, &mut buf, 0).unwrap();
    assert!(buf[..1000].iter().all(|b| *b == 0x5a));
    assert!(buf[1000..].iter().all(|b| *b == 0));
}

#[test]
fn writing_to_a_compressed_cluster_keeps_the_rest_of_it() {
    let contents: Vec<u8> = (0..0x1_0000u32).map(|i| (i % 253) as u8).collect();
    let mut image = compressed_image(&contents);
    write_all_at(&mut image, b"new", 10).unwrap();
    let mut buf = vec![0u8; 0x1_0000];
    read_exact_at(&mut image, &mut buf, 0).unwrap();
    assert_eq!(&buf[..10], &contents[..10]);
    assert_eq!(&buf[10..13], b"new");
    assert_eq!(&buf[13..], &contents[13..]);
    // The storage of the compressed data is given back with the next sync.
    assert_eq!(image.layout.pools.punch_clusters.len(), 1);
    image.fsync().unwrap();
    assert!(image.layout.pools.punch_clusters.is_empty());
}

#[test]
fn corrupt_compressed_data_fails() {
    let mut image = compressed_image(&[3; 100]);
    let entry = match image.layout.mapping.file_offset_read(0) {
        Lookup::NeedTable(i, at) => {
            image.fulfil(Need::Table(i, at)).unwrap();
            match image.layout.mapping.file_offset_read(0) {
                Lookup::Found(ClusterData::Compressed(e)) => e,
                other => panic!("{:?}", other),
            }
        }
        other => panic!("{:?}", other),
    };
    let (at, _) = geometry::decode_compressed_descriptor(entry, image.header.cluster_bits);
    image.store.write_all_at(&[0xff; 64], at).unwrap();
    let mut buf = [0u8; 4];
    assert!(matches!(image.read_at(&mut buf, 0), Err(Fail::Corrupt)));
}

#[test]
fn zeroing_over_a_backing_file_hides_it_without_storage() {
    let backing = Flat { bytes: vec![0xaa; 1024 * 1024] };
    let header = QcowHeader::create_for_size_and_path(1024 * 1024, Some("below")).unwrap();
    let mut image = Image::create(Sparse::new(), header, Some(Box::new(backing)))
        .unwrap_or_else(|e| panic!("{:?}", e));
    image.punch_hole(0x1_0000, 0x1_0000).unwrap();
    let mut buf = vec![1u8; 0x3_0000];
    read_exact_at(&mut image, &mut buf, 0).unwrap();
    assert!(buf[..0x1_0000].iter().all(|b| *b == 0xaa));
    assert!(buf[0x1_0000..0x2_0000].iter().all(|b| *b == 0));
    assert!(buf[0x2_0000..].iter().all(|b| *b == 0xaa));
    assert_eq!(image.layout.mapping.file_offset_read(0x1_0000), Lookup::Found(ClusterData::Zero));
    // Writing to it starts from zeroes, not from what is below.
    write_all_at(&mut image, &[7], 0x1_0005).unwrap();
    read_exact_at(&mut image, &mut buf, 0).unwrap();
    assert_eq!(&buf[0x1_0000..0x1_0008], &[0, 0, 0, 0, 0, 7, 0, 0]);
}

#[test]
fn allocating_keeps_what_is_below() {
    let backing = Flat { bytes: vec![0xaa; 1024 * 1024] };
    let header = QcowHeader::create_for_size_and_path(1024 * 1024, Some("below")).unwrap();
    let mut image = Image::create(Sparse::new(), header, Some(Box::new(backing)))
        .unwrap_or_else(|e| panic!("{:?}", e));
    image.write_at(None, 0x1_0000, 0x1_0000).unwrap();
    let mut buf = vec![1u8; 0x1_0000];
    read_exact_at(&mut image, &mut buf, 0x1_0000).unwrap();
    assert!(buf.iter().all(|b| *b == 0xaa));
}

#[test]
fn reads_and_writes_stop_at_the_end_of_the_disk() {
    let mut image = default_file(0x2_0000);
    let mut buf = [0u8; 16];
    assert_eq!(image.read_at(&mut buf, 0x1_fff8).unwrap(), 8);
    assert_eq!(image.write_at(Some(&buf), 16, 0x1_fff8).unwrap(), 8);
    assert_eq!(image.read_at(&mut buf, 0x3_0000).unwrap(), 0);
}

/// Every cluster of the file that is not counted is in one of the pools, once, and none that is
/// counted is.
fn check_pools(image: &mut Image<Sparse>) {
    let mut listed = image.layout.pools.avail_clusters.clone();
    listed.extend_from_slice(&image.layout.pools.unref_clusters);
    listed.sort();
    let mut uncounted = image.zero_refcount_clusters().unwrap();
    uncounted.sort();
    assert_eq!(listed, uncounted);
}

#[test]
fn free_clusters_are_listed_once() {
    let mut image = default_file(1024 * 1024 * 64);
    check_pools(&mut image);
    write_all_at(&mut image, &[1u8; 0x5_0000], 0x1_8000).unwrap();
    check_pools(&mut image);
    image.punch_hole(0x3_0000, 0x2_0000).unwrap();
    check_pools(&mut image);
    assert!(!image.layout.pools.unref_clusters.is_empty());
    image.fsync().unwrap();
    check_pools(&mut image);
    assert!(image.layout.pools.unref_clusters.is_empty());
    assert!(!image.layout.pools.avail_clusters.is_empty());
    // A cluster that was given up is used again, and the old data is not seen through it.
    let len = image.store.len;
    write_all_at(&mut image, &[2u8], 0x100_0000).unwrap();
    assert_eq!(image.store.len, len);
    check_pools(&mut image);
    let mut buf = [9u8; 4];
    read_exact_at(&mut image, &mut buf, 0x100_0000).unwrap();
    assert_eq!(buf, [2, 0, 0, 0]);
    image.zero_bytes(0x1_0000, 0x2_0000).unwrap();
    check_pools(&mut image);
    image.fsync().unwrap();
    check_pools(&mut image);
    read_exact_at(&mut image, &mut buf, 0x5_0000).unwrap();
    assert_eq!(buf, [1, 1, 1, 1]);
}

#[test]
fn a_released_payload_is_tracked() {
    let mut image = compressed_image(&[5u8; 0x1_0000]);
    check_pools(&mut image);
    write_all_at(&mut image, &[6u8; 3], 7).unwrap();
    check_pools(&mut image);
    image.fsync().unwrap();
    check_pools(&mut image);
    let mut buf = [0u8; 11];
    read_exact_at(&mut image, &mut buf, 0).unwrap();
    assert_eq!(buf, [5, 5, 5, 5, 5, 5, 5, 6, 6, 6, 5]);
}

#[test]
fn counts_are_rebuilt_for_small_clusters() {
    let mut header = QcowHeader::create_for_size_and_path(1024 * 1024 * 4, None).unwrap();
    header.cluster_bits = 9;
    header.l1_size = 128;
    header.refcount_table_offset = 0x200;
    header.refcount_table_clusters = 1;
    header.l1_table_offset = 0x600;
    let mut store = Sparse::new();
    write_header(&mut store, &header).unwrap();
    store.set_len(0xa00).unwrap();
    rebuild_counts(&mut store, &header).unwrap();
    // The refcount table has its own cluster, and only its first entry points at a block.
    let table = read_table(&store, 0x200, 64).unwrap();
    assert_eq!(table[0], 0x400);
    assert!(table[1..].iter().all(|at| *at == 0));
    let counts = read_block(&store, 0x400, 256).unwrap();
    assert_eq!(counts[..6], [1, 1, 1, 1, 1, 0]);
    assert!(counts[6..].iter().all(|n| *n == 0));
    let l1 = read_table(&store, 0x600, 128).unwrap();
    assert!(l1.iter().all(|at| *at == 0));
}
