//! Decompressing clusters.

use std::io::Read;

use vstd::prelude::*;

use crate::qcow;

verus! {

/// The first `limit` bytes that the raw DEFLATE stream at the start of `compressed` stands for, or
/// all of them if it stands for fewer. `None` where the decoder fails on the way there: the stream
/// breaks off, or is corrupt.
pub uninterp spec fn inflated(compressed: Seq<u8>, limit: nat) -> Option<Seq<u8>>;

/// Reads from a `flate2::read::DeflateDecoder` over `compressed` until `limit` bytes have come or
/// the stream ends. The contract names what comes, says that it is no longer than `limit`, and
/// says that an error of the decoder is the only other outcome.
#[verifier::external_body]
fn inflate(compressed: &[u8], limit: usize) -> (r: Option<Vec<u8>>)
    ensures
        match r {
            Some(v) => inflated(compressed@, limit as nat) == Some(v@) && v@.len() <= limit,
            None => inflated(compressed@, limit as nat) is None,
        },
{
    let mut out = Vec::new();
    let decoder = flate2::read::DeflateDecoder::new(compressed);
    match decoder.take(limit as u64).read_to_end(&mut out) {
        Ok(_) => Some(out),
        Err(_) => None,
    }
}

/// The buffer `out` with `decoded` over its start, as far as it fits.
pub open spec fn filled(decoded: Seq<u8>, out: Seq<u8>) -> Seq<u8> {
    Seq::new(
        out.len(),
        |i: int|
            if i < decoded.len() {
                decoded[i]
            } else {
                out[i]
            },
    )
}

/// Copies what was decoded over the start of a buffer. What is short of the buffer leaves the rest
/// as it is, so that a cluster whose data ends early keeps the zeroes it started with.
pub fn fill_cluster(decoded: &[u8], out: &mut [u8])
    ensures
        final(out)@ == filled(decoded@, old(out)@),
{
    let mut i: usize = 0;
    while i < out.len() && i < decoded.len()
        invariant
            i <= out@.len(),
            i <= decoded@.len(),
            out@.len() == old(out)@.len(),
            forall|j: int|
                0 <= j < out@.len() ==> out@[j] == (if j < i {
                    decoded@[j]
                } else {
                    old(out)@[j]
                }),
        decreases out@.len() - i,
    {
        out[i] = decoded[i];
        i = i + 1;
    }
    assert(out@ =~= filled(decoded@, old(out)@));
}

/// How decompressing went.
#[derive(Clone, Copy, Debug, PartialEq, Eq, Structural)]
pub enum Decompressed {
    Done,
    /// The data is corrupt.
    Failed,
    /// The data is a zstd frame, which has to be decoded outside.
    NeedZstd,
}

/// Decompresses one cluster into `out`.
pub fn decompress_cluster_into(compression_type: u8, compressed: &[u8], out: &mut [u8]) -> (r:
    Decompressed)
    ensures
        if compression_type == qcow::QCOW_COMPRESSION_TYPE_ZSTD {
            r == Decompressed::NeedZstd && final(out)@ == old(out)@
        } else {
            match inflated(compressed@, old(out)@.len()) {
                Some(s) => r == Decompressed::Done && final(out)@ == filled(s, old(out)@),
                None => r == Decompressed::Failed && final(out)@ == old(out)@,
            }
        },
        r is NeedZstd <==> compression_type == 1,
{
    if compression_type == qcow::QCOW_COMPRESSION_TYPE_ZSTD {
        return Decompressed::NeedZstd;
    }
    let limit: usize = out.len();
    match inflate(compressed, limit) {
        Some(decoded) => {
            fill_cluster(decoded.as_slice(), out);
            Decompressed::Done
        },
        None => Decompressed::Failed,
    }
}

/// How one read of a decoder went.
#[derive(Clone, Copy, Debug, PartialEq, Eq, Structural)]
pub enum Fetched {
    /// That many bytes came; none is the end of the data.
    Bytes(usize),
    /// The read has to be made again.
    Interrupted,
    Failed,
}

/// How far filling a buffer has come.
#[derive(Clone, Copy, Debug, PartialEq, Eq, Structural)]
pub enum Filling {
    /// The rest of the buffer, from there on, is to be read into.
    From(usize),
    /// The buffer is full, or the data has ended; so much of the buffer holds data.
    Ended(usize),
    Failed,
}

/// Goes on with filling a buffer of `len` bytes, `have` of which hold data, after a read into the
/// rest of it.
pub fn read_fill(have: usize, len: usize, fetched: Fetched) -> (r: Filling)
    requires
        have <= len,
        fetched matches Fetched::Bytes(n) ==> n <= len - have,
    ensures
        r == (match fetched {
            Fetched::Failed => Filling::Failed,
            Fetched::Interrupted => Filling::From(have),
            Fetched::Bytes(n) => if n == 0 || have + n == len {
                Filling::Ended((have + n) as usize)
            } else {
                Filling::From((have + n) as usize)
            },
        }),
        r == filling(have as int, len as int, fetched),
{
    match fetched {
        Fetched::Failed => Filling::Failed,
        Fetched::Interrupted => Filling::From(have),
        Fetched::Bytes(n) => if n == 0 || have + n == len {
            Filling::Ended(have + n)
        } else {
            Filling::From(have + n)
        },
    }
}

/// What a reader of a compressed stream does next.
#[derive(Clone, Copy, Debug, PartialEq, Eq, Structural)]
pub enum ReadStep {
    /// The stream is decoded further, from its byte at that place on.
    Decode(usize),
    /// The read gives so many bytes; none is the end of the data.
    Return(usize),
}

/// A reader of a compressed stream of `len` bytes. Input that ends within a frame reads as the end
/// of the data, and so does the end of the frame, where only one is read.
pub struct FrameReader {
    pub len: usize,
    pub pos: usize,
    pub single_frame: bool,
    pub frame_done: bool,
}

impl FrameReader {
    /// The place is in the stream.
    pub open spec fn wf(&self) -> bool {
        self.pos <= self.len
    }

    /// There is nothing to decode any more.
    pub open spec fn ended(&self) -> bool {
        (self.single_frame && self.frame_done) || self.pos == self.len
    }

    /// What a read into a buffer of so many bytes begins with.
    pub open spec fn begins(&self, room: int) -> ReadStep {
        if room == 0 || self.ended() {
            ReadStep::Return(0)
        } else {
            ReadStep::Decode(self.pos)
        }
    }

    /// What a read goes on with, and the reader then.
    pub open spec fn goes_on(self, taken: int, produced: int, frame_ended: bool) -> (
        ReadStep,
        FrameReader,
    ) {
        let next = FrameReader {
            pos: (self.pos + taken) as usize,
            frame_done: self.frame_done || frame_ended,
            ..self
        };
        (
            if produced > 0 {
                ReadStep::Return(produced as usize)
            } else {
                next.begins(1)
            },
            next,
        )
    }

    pub fn with_buffer(len: usize, single_frame: bool) -> (r: Self)
        ensures
            r.wf(),
            r == (FrameReader { len, pos: 0, single_frame, frame_done: false }),
    {
        FrameReader { len, pos: 0, single_frame, frame_done: false }
    }

    /// Begins a read into a buffer of so many bytes.
    pub fn read(&self, room: usize) -> (r: ReadStep)
        requires
            self.wf(),
        ensures
            r == (if room == 0 || self.ended() {
                ReadStep::Return(0)
            } else {
                ReadStep::Decode(self.pos)
            }),
            r == self.begins(room as int),
    {
        if room == 0 || (self.single_frame && self.frame_done) || self.pos == self.len {
            ReadStep::Return(0)
        } else {
            ReadStep::Decode(self.pos)
        }
    }

    /// Goes on with a read, after so many bytes of the stream were taken and so many were decoded.
    pub fn decoded(&mut self, taken: usize, produced: usize, frame_ended: bool) -> (r: ReadStep)
        requires
            old(self).wf(),
            taken <= old(self).len - old(self).pos,
        ensures
            final(self).wf(),
            final(self).len == old(self).len,
            final(self).single_frame == old(self).single_frame,
            final(self).pos == old(self).pos + taken,
            final(self).frame_done == (old(self).frame_done || frame_ended),
            r == (if produced > 0 {
                ReadStep::Return(produced)
            } else if final(self).ended() {
                ReadStep::Return(0)
            } else {
                ReadStep::Decode(final(self).pos)
            }),
            (r, *final(self)) == old(self).goes_on(taken as int, produced as int, frame_ended),
    {
        self.pos = self.pos + taken;
        if frame_ended {
            self.frame_done = true;
        }
        if produced > 0 {
            return ReadStep::Return(produced);
        }
        if (self.single_frame && self.frame_done) || self.pos == self.len {
            return ReadStep::Return(0);
        }
        ReadStep::Decode(self.pos)
    }
}

/// Where only one frame is read, nothing behind it is decoded.
pub proof fn nothing_is_read_behind_the_frame(r: FrameReader)
    requires
        r.single_frame,
        r.frame_done,
    ensures
        r.ended(),
{
}

/// Decodes a zstd-compressed cluster from the bytes that its frame decoded to.
pub fn decompress_zstd_cluster(frame: &[u8], out: &mut [u8])
    ensures
        final(out)@ == filled(frame@, old(out)@),
{
    fill_cluster(frame, out);
}

/// A cluster of zeroes, filled with what a stream stands for, is exactly that, followed by zeroes
/// if the stream is short of a cluster.
pub proof fn a_short_stream_leaves_zeroes(decoded: Seq<u8>, size: nat)
    requires
        decoded.len() <= size,
    ensures
        filled(decoded, Seq::new(size, |i: int| 0u8)) == decoded + Seq::new(
            (size - decoded.len()) as nat,
            |i: int| 0u8,
        ),
{
    assert(filled(decoded, Seq::new(size, |i: int| 0u8)) =~= decoded + Seq::new(
        (size - decoded.len()) as nat,
        |i: int| 0u8,
    ));
}

/// How many clusters each thread decompresses, of `jobs` in all, where `available` threads can run
/// at once. `None` where that is not worth a thread.
pub fn decode_chunk(jobs: usize, available: usize) -> (r: Option<usize>)
    ensures
        if jobs < 2 {
            r is None
        } else {
            r is Some && r->0 == chunk_size(jobs as int, threads_for(jobs as int, available as int))
        },
{
    if jobs < 2 {
        return None;
    }
    let mut threads: usize = if available < 1 {
        1
    } else if available > qcow::MAX_DECODE_THREADS {
        qcow::MAX_DECODE_THREADS
    } else {
        available
    };
    if threads > jobs {
        threads = jobs;
    }
    proof {
        vstd::arithmetic::div_mod::lemma_div_nonincreasing(jobs as int, threads as int);
        if jobs % threads != 0 {
            if threads == 1 {
            } else {
                vstd::arithmetic::div_mod::lemma_div_decreases(jobs as int, threads as int);
            }
        }
    }
    let whole: usize = jobs / threads;
    if jobs % threads == 0 {
        Some(whole)
    } else {
        Some(whole + 1)
    }
}

/// How many threads decompress `jobs` clusters.
pub open spec fn threads_for(jobs: int, available: int) -> int {
    let t = if available < 1 {
        1
    } else if available > qcow::MAX_DECODE_THREADS {
        qcow::MAX_DECODE_THREADS as int
    } else {
        available
    };
    if t > jobs {
        jobs
    } else {
        t
    }
}

/// How many clusters each of `threads` threads takes.
pub open spec fn chunk_size(jobs: int, threads: int) -> int {
    if jobs % threads == 0 {
        jobs / threads
    } else {
        jobs / threads + 1
    }
}

/// The chunks hold every cluster, and there are no more of them than threads.
pub proof fn chunks_hold_every_job(jobs: int, available: int)
    requires
        2 <= jobs,
    ensures
        1 <= threads_for(jobs, available) <= qcow::MAX_DECODE_THREADS,
        1 <= chunk_size(jobs, threads_for(jobs, available)),
        threads_for(jobs, available) * chunk_size(jobs, threads_for(jobs, available)) >= jobs,
{
    let t = threads_for(jobs, available);
    vstd::arithmetic::div_mod::lemma_fundamental_div_mod(jobs, t);
    vstd::arithmetic::div_mod::lemma_div_non_zero(jobs, t);
    assert(t * (jobs / t + 1) == t * (jobs / t) + t) by (nonlinear_arith);
}

/// What was decoded is at the start of the buffer, and no more of it than fits; behind it the buffer is
/// as it was.
pub proof fn decoded_data_comes_first(decoded: Seq<u8>, out: Seq<u8>)
    ensures
        decoded.len() >= out.len() ==> filled(decoded, out) == decoded.take(out.len() as int),
        decoded.len() <= out.len() ==> filled(decoded, out) == decoded + out.skip(
            decoded.len() as int,
        ),
{
    if decoded.len() >= out.len() {
        assert(filled(decoded, out) =~= decoded.take(out.len() as int));
    }
    if decoded.len() <= out.len() {
        assert(filled(decoded, out) =~= decoded + out.skip(decoded.len() as int));
    }
}

/// How far filling a buffer has come after a read.
pub open spec fn filling(have: int, len: int, fetched: Fetched) -> Filling {
    match fetched {
        Fetched::Failed => Filling::Failed,
        Fetched::Interrupted => Filling::From(have as usize),
        Fetched::Bytes(n) => if n == 0 || have + n == len {
            Filling::Ended((have + n) as usize)
        } else {
            Filling::From((have + n) as usize)
        },
    }
}

/// Every byte that a read brings is counted once; filling ends with the buffer or with the data, and
/// not before, and a read that was interrupted loses nothing.
pub proof fn buffers_are_filled(have: usize, len: usize, fetched: Fetched)
    requires
        have < len,
        fetched matches Fetched::Bytes(n) ==> n <= len - have,
    ensures
        filling(have as int, len as int, fetched) is Failed <==> fetched is Failed,
        filling(have as int, len as int, Fetched::Interrupted) == Filling::From(have),
        fetched matches Fetched::Bytes(n) ==> match filling(have as int, len as int, fetched) {
            Filling::From(k) => k == have + n && have < k < len,
            Filling::Ended(k) => k == have + n && (k == len || k == have),
            Filling::Failed => false,
        },
{
}

/// A reader decodes only bytes that it has, from behind those that it took; it stops with what was
/// decoded, and without anything only where the stream or the one frame that is read has ended.
pub proof fn streams_are_read_to_their_end(
    r: FrameReader,
    room: int,
    taken: int,
    produced: int,
    frame_ended: bool,
)
    requires
        r.wf(),
        0 <= taken <= r.len - r.pos,
        0 <= produced <= usize::MAX,
        0 < room,
    ensures
        r.begins(0) == ReadStep::Return(0),
        r.begins(room) matches ReadStep::Decode(at) ==> at == r.pos && at < r.len,
        r.begins(room) is Return <==> r.pos == r.len || (r.single_frame && r.frame_done),
        ({
            let (step, next) = r.goes_on(taken, produced, frame_ended);
            &&& next.pos == r.pos + taken && next.len == r.len && next.single_frame
                == r.single_frame
            &&& next.frame_done <==> r.frame_done || frame_ended
            &&& produced > 0 ==> step == ReadStep::Return(produced as usize)
            &&& produced == 0 ==> step == next.begins(room)
        }),
{
}

/// No more than eight threads run, nor more than can or than there are clusters; the last of them has
/// something to do.
pub proof fn threads_are_not_wasted(jobs: int, available: int)
    requires
        2 <= jobs,
    ensures
        ({
            let t = threads_for(jobs, available);
            &&& 1 <= t <= 8
            &&& t <= jobs
            &&& available >= 1 ==> t <= available
            &&& t == 8 || t == jobs || t == available || (t == 1 && available < 1)
            &&& (chunk_size(jobs, t) - 1) * t < jobs
            &&& chunk_size(jobs, t) * t >= jobs
        }),
{
    let t = threads_for(jobs, available);
    vstd::arithmetic::div_mod::lemma_fundamental_div_mod(jobs, t);
    vstd::arithmetic::div_mod::lemma_mod_bound(jobs, t);
    let q = jobs / t;
    assert(t * q == q * t && (q + 1) * t == q * t + t && (q - 1) * t == q * t - t)
        by (nonlinear_arith);
}

} // verus!
