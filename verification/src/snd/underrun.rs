//! Concealment of playback underruns: when a period is missing, the waveform before it is continued,
//! faded, and blended into what comes behind it. Here stands what decides on that: the geometry,
//! the history, the fade, and where the continuation is taken from.

use crate::bytes;
use crate::snd::parameters::UnderrunMode;
use vstd::arithmetic::div_mod::*;
use vstd::prelude::*;

verus! {

/// Longest pitch period searched, in milliseconds.
pub const MAX_PITCH_MS: u64 = 20;

/// Shortest pitch period searched, in milliseconds.
pub const MIN_PITCH_MS: u64 = 2;

/// Periods of concealment before the output has faded to silence.
pub const FADE_PERIODS: u32 = 3;

/// Crossfade applied when real audio resumes, in milliseconds.
pub const BLEND_MS: u64 = 2;

/// Overlap of two spliced windows, in milliseconds.
pub const WSOLA_OVERLAP_MS: u64 = 5;

/// Prediction order of the filter that continues a spectrum.
pub const LPC_ORDER: usize = 16;

/// How a sample is laid out.
#[derive(Clone, Copy, Debug, PartialEq, Eq, Structural)]
pub enum SampleFormat {
    U8,
    S16LE,
    /// 24 bits in the low three of four bytes.
    S24LE,
    S32LE,
    F32LE,
}

impl SampleFormat {
    /// Bytes of a sample.
    pub open spec fn width(self) -> int {
        match self {
            SampleFormat::U8 => 1,
            SampleFormat::S16LE => 2,
            SampleFormat::S24LE | SampleFormat::S32LE | SampleFormat::F32LE => 4,
        }
    }

    /// Bytes of a sample.
    pub fn sample_bytes(self) -> (r: usize)
        ensures
            r == self.width(),
    {
        match self {
            SampleFormat::U8 => 1,
            SampleFormat::S16LE => 2,
            SampleFormat::S24LE | SampleFormat::S32LE | SampleFormat::F32LE => 4,
        }
    }

    /// The least number that a sample holds.
    pub open spec fn lowest(self) -> int {
        match self {
            SampleFormat::U8 => -0x80,
            SampleFormat::S16LE => -0x8000,
            SampleFormat::S24LE => -0x80_0000,
            SampleFormat::S32LE | SampleFormat::F32LE => -0x8000_0000,
        }
    }

    /// The greatest number that a sample holds.
    pub open spec fn highest(self) -> int {
        -self.lowest() - 1
    }
}

/// The number that the bytes of a sample hold: zero is silence. Of a floating-point sample, the
/// bits.
pub open spec fn sample_value(format: SampleFormat, s: Seq<u8>) -> int {
    let v = bytes::le_value(s) as int;
    match format {
        SampleFormat::U8 => v - 0x80,
        SampleFormat::S16LE => if v >= 0x8000 {
            v - 0x1_0000
        } else {
            v
        },
        SampleFormat::S24LE => {
            let low = v % 0x100_0000;
            if low >= 0x80_0000 {
                low - 0x100_0000
            } else {
                low
            }
        },
        SampleFormat::S32LE | SampleFormat::F32LE => if v >= 0x8000_0000 {
            v - 0x1_0000_0000
        } else {
            v
        },
    }
}

/// The bytes of a number, as a sample.
pub open spec fn sample_bytes_of(format: SampleFormat, v: int) -> Seq<u8> {
    match format {
        SampleFormat::U8 => bytes::le_bytes((v + 0x80) as nat, 1),
        SampleFormat::S16LE => bytes::le_bytes((v % 0x1_0000) as nat, 2),
        _ => bytes::le_bytes((v % 0x1_0000_0000) as nat, 4),
    }
}

/// A sample reads back as what was written, if it fits.
pub proof fn samples_read_back(format: SampleFormat, v: int)
    requires
        format.lowest() <= v <= format.highest(),
    ensures
        sample_value(format, sample_bytes_of(format, v)) == v,
        sample_bytes_of(format, v).len() == format.width(),
{
    bytes::byte_pow_values();
    match format {
        SampleFormat::U8 => {
            assert(bytes::byte_pow(1) == 256) by {
                reveal_with_fuel(bytes::byte_pow, 2);
            }
            bytes::le_round_trip((v + 0x80) as nat, 1);
            bytes::be_bytes_len((v + 0x80) as nat, 1);
        },
        SampleFormat::S16LE => {
            bytes::le_round_trip((v % 0x1_0000) as nat, 2);
            bytes::be_bytes_len((v % 0x1_0000) as nat, 2);
        },
        _ => {
            bytes::le_round_trip((v % 0x1_0000_0000) as nat, 4);
            bytes::be_bytes_len((v % 0x1_0000_0000) as nat, 4);
        },
    }
}

/// The number that sample `index` holds.
pub fn decode(format: SampleFormat, pcm: &[u8], index: usize) -> (r: i32)
    requires
        (index + 1) * format.width() <= pcm.len(),
    ensures
        r == sample_value(
            format,
            pcm@.subrange(index * format.width(), (index + 1) * format.width()),
        ),
{
    let width: usize = format.sample_bytes();
    proof {
        assert((index + 1) * width == index * width + width) by (nonlinear_arith);
        assert(0 <= index * width) by (nonlinear_arith);
        assert(pcm.len() == pcm@.len());
    }
    let at: usize = index * width;
    let ghost s = pcm@.subrange(at as int, at + width);
    match format {
        SampleFormat::U8 => {
            proof {
                let one = s.reverse();
                assert(one.len() == 1 && one.last() == pcm@[at as int]);
                reveal_with_fuel(bytes::be_value, 2);
                assert(bytes::be_value(one.drop_last()) == 0);
                assert(bytes::le_value(s) == pcm@[at as int]);
            }
            pcm[at] as i32 - 0x80
        },
        SampleFormat::S16LE => {
            let v: u16 = bytes::get_le16(pcm, at);
            if v >= 0x8000 {
                v as i32 - 0x1_0000
            } else {
                v as i32
            }
        },
        SampleFormat::S24LE => {
            let v: u32 = bytes::get_le32(pcm, at) % 0x100_0000;
            if v >= 0x80_0000 {
                v as i32 - 0x100_0000
            } else {
                v as i32
            }
        },
        SampleFormat::S32LE | SampleFormat::F32LE => {
            let v: u32 = bytes::get_le32(pcm, at);
            if v >= 0x8000_0000 {
                (v as i64 - 0x1_0000_0000) as i32
            } else {
                v as i32
            }
        },
    }
}

/// Writes a number as sample `index`. It is brought into the range of the format first.
pub fn encode(format: SampleFormat, value: i64, pcm: &mut [u8], index: usize)
    requires
        (index + 1) * format.width() <= old(pcm).len(),
    ensures
        final(pcm)@.len() == old(pcm)@.len(),
        final(pcm)@.subrange(index * format.width(), (index + 1) * format.width())
            == sample_bytes_of(format, clamped(format, value as int)),
        forall|i: int|
            0 <= i < old(pcm)@.len() && !(index * format.width() <= i < (index + 1)
                * format.width()) ==> final(pcm)@[i] == old(pcm)@[i],
{
    let width: usize = format.sample_bytes();
    proof {
        assert((index + 1) * width == index * width + width) by (nonlinear_arith);
        assert(0 <= index * width) by (nonlinear_arith);
        assert(pcm.len() == pcm@.len());
    }
    let at: usize = index * width;
    let (low, high): (i64, i64) = match format {
        SampleFormat::U8 => (-0x80, 0x7f),
        SampleFormat::S16LE => (-0x8000, 0x7fff),
        SampleFormat::S24LE => (-0x80_0000, 0x7f_ffff),
        SampleFormat::S32LE | SampleFormat::F32LE => (-0x8000_0000, 0x7fff_ffff),
    };
    let v: i64 = if value < low {
        low
    } else if value > high {
        high
    } else {
        value
    };
    let ghost out = sample_bytes_of(format, v as int);
    proof {
        samples_read_back(format, v as int);
    }
    match format {
        SampleFormat::U8 => {
            let b: u8 = (v + 0x80) as u8;
            pcm[at] = b;
            proof {
                reveal_with_fuel(bytes::be_bytes, 2);
                assert(bytes::le_bytes((v + 0x80) as nat, 1) =~= seq![b]);
            }
        },
        SampleFormat::S16LE => {
            let u: u16 = if v < 0 {
                (v + 0x1_0000) as u16
            } else {
                v as u16
            };
            let b = bytes::le16_bytes(u);
            pcm[at] = b[0];
            pcm[at + 1] = b[1];
            assert(b@ == out);
        },
        _ => {
            let u: u32 = if v < 0 {
                (v + 0x1_0000_0000) as u32
            } else {
                v as u32
            };
            let b = bytes::le32_bytes(u);
            pcm[at] = b[0];
            pcm[at + 1] = b[1];
            pcm[at + 2] = b[2];
            pcm[at + 3] = b[3];
            assert(b@ == out);
        },
    }
    assert(pcm@.subrange(at as int, at + width) =~= out);
}

/// A number brought into the range of a format.
pub open spec fn clamped(format: SampleFormat, v: int) -> int {
    if v < format.lowest() {
        format.lowest()
    } else if v > format.highest() {
        format.highest()
    } else {
        v
    }
}

/// The period `pcm` with its first `n` samples replaced by the numbers in `mixed`.
pub open spec fn blended(pcm: Seq<u8>, format: SampleFormat, mixed: Seq<i64>, n: int) -> Seq<u8> {
    let w = format.width();
    Seq::new(
        pcm.len(),
        |i: int|
            if i < n * w {
                sample_bytes_of(format, clamped(format, mixed[i / w] as int))[i % w]
            } else {
                pcm[i]
            },
    )
}

/// Writes the numbers in `mixed` over the first samples of a period.
fn blend(format: SampleFormat, mixed: &[i64], pcm: &mut Vec<u8>)
    requires
        mixed.len() * format.width() <= old(pcm).len(),
    ensures
        final(pcm)@ == blended(old(pcm)@, format, mixed@, mixed@.len() as int),
{
    let ghost p = pcm@;
    let ghost w = format.width();
    let mut i: usize = 0;
    assert(pcm@ =~= blended(p, format, mixed@, 0));
    while i < mixed.len()
        invariant
            i <= mixed@.len(),
            mixed@.len() == mixed.len(),
            1 <= w <= 4,
            w == format.width(),
            p == old(pcm)@,
            mixed@.len() * w <= p.len(),
            pcm@ == blended(p, format, mixed@, i as int),
        decreases mixed@.len() - i,
    {
        proof {
            assert((i + 1) * w <= mixed@.len() * w) by (nonlinear_arith)
                requires
                    i + 1 <= mixed@.len(),
                    w >= 1,
            ;
            assert((i + 1) * w == i * w + w) by (nonlinear_arith);
            assert(0 <= i * w) by (nonlinear_arith)
                requires
                    w >= 1,
            ;
        }
        let ghost before = pcm@;
        encode(format, mixed[i], pcm.as_mut_slice(), i);
        proof {
            let out = sample_bytes_of(format, clamped(format, mixed@[i as int] as int));
            assert forall|j: int| 0 <= j < p.len() implies pcm@[j] == blended(
                p,
                format,
                mixed@,
                i + 1,
            )[j] by {
                if i * w <= j < (i + 1) * w {
                    assert(w * i == i * w) by (nonlinear_arith);
                    lemma_fundamental_div_mod_converse(j, w, i as int, j - i * w);
                    assert(pcm@[j] == pcm@.subrange(i * w, (i + 1) * w)[j - i * w]);
                } else {
                    assert(pcm@[j] == before[j]);
                }
            }
            assert(pcm@ =~= blended(p, format, mixed@, i + 1));
        }
        i = i + 1;
    }
}

/// The part that real audio has in a blended frame, as a fraction.
pub open spec fn weight_at(frame: int, frames: int) -> (int, int) {
    (frame + 1, frames + 1)
}

/// The part of real audio rises by the same step from frame to frame, from one step above nothing to
/// one step below all: a frame and its mirror image have all of it between them.
pub proof fn real_audio_comes_in_evenly(frame: int, frames: int)
    requires
        0 <= frame < frames,
    ensures
        0 < weight_at(frame, frames).0 < weight_at(frame, frames).1,
        weight_at(frame, frames).0 + weight_at(frames - 1 - frame, frames).0 == weight_at(
            frame,
            frames,
        ).1,
        weight_at(frame + 1, frames).0 == weight_at(frame, frames).0 + 1,
        weight_at(0, frames) == (1int, frames + 1),
{
}

/// The part that real audio has in a blended frame, as a fraction: it rises from frame to frame.
pub fn blend_weight(frame: usize, frames: usize) -> (r: (u64, u64))
    requires
        frame < frames,
        frames < u64::MAX,
    ensures
        r.0 == frame + 1,
        r.1 == frames + 1,
        r.0 == weight_at(frame as int, frames as int).0,
        r.1 == weight_at(frame as int, frames as int).1,
{
    (frame as u64 + 1, frames as u64 + 1)
}

/// What concealing a period comes to.
#[derive(Clone, Copy, Debug, PartialEq, Eq, Structural)]
pub enum Conceal {
    /// There is nothing to continue: the period is silent.
    NoHistory,
    /// The continuation has faded out: the period is silent, and so is the tail that real audio is
    /// blended over.
    Faded,
    /// The continuation fills the period.
    Fill {
        /// What is derived from the history has to be built first.
        prepare: bool,
        /// The gain at the start of the period, in parts of [`FADE_PERIODS`].
        gain: u32,
    },
}

/// What stands behind the concealment of a stream.
pub struct UnderrunConcealer {
    pub mode: UnderrunMode,
    pub format: SampleFormat,
    pub channels: usize,
    pub frame_rate: u32,
    pub period_bytes: usize,
    /// The period that comes in.
    pub scratch: Vec<u8>,
    /// The last good period.
    pub history: Vec<u8>,
    pub have_history: bool,
    /// How many periods in a row have been concealed.
    pub consecutive: u32,
    pub concealed_last: bool,
    /// What is derived from the history was built.
    pub prepared: bool,
}

/// A period is a whole number of frames.
pub open spec fn is_even(
    channels: int,
    frame_rate: u32,
    period_bytes: int,
    format: SampleFormat,
) -> bool {
    &&& channels > 0
    &&& frame_rate > 0
    &&& period_bytes > 0
    &&& period_bytes % (channels * format.width()) == 0
}

impl UnderrunConcealer {
    /// The geometry makes sense, and both buffers hold a period.
    pub open spec fn wf(&self) -> bool {
        &&& self.mode != UnderrunMode::Silence
        &&& is_even(
            self.channels as int,
            self.frame_rate,
            self.period_bytes as int,
            self.format,
        )
        &&& self.scratch@.len() == self.period_bytes
        &&& self.history@.len() == self.period_bytes
    }

    /// The two are of the same stream.
    pub open spec fn same_stream(&self, other: &Self) -> bool {
        &&& self.mode == other.mode
        &&& self.format == other.format
        &&& self.channels == other.channels
        &&& self.frame_rate == other.frame_rate
        &&& self.period_bytes == other.period_bytes
    }

    /// Frames of a period.
    pub open spec fn frames_of(&self) -> int {
        self.period_bytes as int / (self.channels * self.format.width())
    }

    /// A concealer, unless the mode wants silence or a period is no whole number of frames.
    pub fn new(
        mode: UnderrunMode,
        channels: usize,
        frame_rate: u32,
        period_bytes: usize,
        format: SampleFormat,
    ) -> (r: Option<Self>)
        requires
            channels * format.width() <= usize::MAX,
        ensures
            r is Some == (mode != UnderrunMode::Silence && is_even(
                channels as int,
                frame_rate,
                period_bytes as int,
                format,
            )),
            r matches Some(c) ==> {
                &&& c.wf()
                &&& c.mode == mode
                &&& c.format == format
                &&& c.channels == channels
                &&& c.frame_rate == frame_rate
                &&& c.period_bytes == period_bytes
                &&& !c.have_history
                &&& c.consecutive == 0
                &&& !c.concealed_last
                &&& !c.prepared
                &&& c.hole() == Hole::after_good(false)
                &&& forall|i: int| 0 <= i < period_bytes ==> c.scratch@[i] == 0
                &&& forall|i: int| 0 <= i < period_bytes ==> c.history@[i] == 0
            },
    {
        match mode {
            UnderrunMode::Silence => {
                return None;
            },
            _ => {},
        }
        if channels == 0 || frame_rate == 0 || period_bytes == 0 {
            return None;
        }
        let width: usize = format.sample_bytes();
        proof {
            assert(channels * width >= 1) by (nonlinear_arith)
                requires
                    channels >= 1,
                    width >= 1,
            ;
        }
        let frame_bytes: usize = channels * width;
        if period_bytes % frame_bytes != 0 {
            return None;
        }
        Some(
            UnderrunConcealer {
                mode,
                format,
                channels,
                frame_rate,
                period_bytes,
                scratch: vec![0u8; period_bytes],
                history: vec![0u8; period_bytes],
                have_history: false,
                consecutive: 0,
                concealed_last: false,
                prepared: false,
            },
        )
    }

    pub fn period_bytes(&self) -> (r: usize)
        ensures
            r == self.period_bytes,
    {
        self.period_bytes
    }

    /// Frames of a period.
    pub fn frames(&self) -> (r: usize)
        requires
            self.wf(),
        ensures
            r == self.frames_of(),
            r >= 1,
    {
        let width: usize = self.format.sample_bytes();
        proof {
            let p = self.period_bytes as int;
            let c = self.channels as int;
            let f = c * width;
            assert(f == width * c) by (nonlinear_arith)
                requires
                    f == c * width,
            ;
            assert(f >= 1) by (nonlinear_arith)
                requires
                    f == c * width,
                    c >= 1,
                    width >= 1,
            ;
            lemma_div_denominator(p, width as int, c);
            lemma_fundamental_div_mod(p, f);
            assert(p / f >= 1) by (nonlinear_arith)
                requires
                    p == f * (p / f),
                    p >= 1,
                    f >= 1,
            ;
        }
        self.period_bytes / width / self.channels
    }

    /// The buffer that the incoming period is read into.
    pub fn scratch_mut(&mut self) -> (r: &mut [u8])
        requires
            old(self).wf(),
        ensures
            r@ == old(self).scratch@,
            final(self).scratch@ == final(r)@,
            final(self).same_stream(old(self)),
            final(self).history == old(self).history,
            final(self).have_history == old(self).have_history,
            final(self).consecutive == old(self).consecutive,
            final(self).concealed_last == old(self).concealed_last,
            final(self).prepared == old(self).prepared,
    {
        self.scratch.as_mut_slice()
    }

    /// How many frames of the incoming period are blended over the tail of what was concealed: none
    /// unless it is a whole period, and the first one after a hole.
    pub open spec fn blend_frames(&self, len: int) -> int {
        if len != self.period_bytes || !self.concealed_last {
            0
        } else if self.frame_rate * BLEND_MS / 1000 < self.frames_of() {
            self.frame_rate * BLEND_MS / 1000
        } else {
            self.frames_of()
        }
    }

    /// How many frames of the incoming period are blended over the tail of what was concealed.
    pub fn blend_in(&self, len: usize) -> (r: usize)
        requires
            self.wf(),
        ensures
            r == self.blend_frames(len as int),
    {
        if len != self.period_bytes || !self.concealed_last {
            return 0;
        }
        let want: u64 = self.frame_rate as u64 * BLEND_MS / 1000;
        let frames: usize = self.frames();
        if want < frames as u64 {
            want as usize
        } else {
            frames
        }
    }

    /// The samples that are blended lie in the period.
    proof fn blend_fits(&self, len: int)
        requires
            self.wf(),
        ensures
            0 <= self.blend_frames(len) * self.channels,
            self.blend_frames(len) * self.channels * self.format.width() <= self.period_bytes,
    {
        let b = self.blend_frames(len);
        let c = self.channels as int;
        let w = self.format.width();
        let p = self.period_bytes as int;
        let f = c * w;
        assert(f >= 1) by (nonlinear_arith)
            requires
                f == c * w,
                c >= 1,
                w >= 1,
        ;
        lemma_fundamental_div_mod(p, f);
        lemma_div_pos_is_pos(p, f);
        assert(0 <= b <= p / f);
        assert(0 <= b * c && b * c * w <= p) by (nonlinear_arith)
            requires
                f == c * w,
                p == f * (p / f),
                0 <= b <= p / f,
                c >= 1,
                w >= 1,
        ;
    }

    /// Takes in the period that the scratch buffer holds. The samples of the frames that are blended
    /// are replaced by `mixed`. A whole period becomes the history. A shorter one is the end of the
    /// stream: nothing is continued from it. Whether it was a whole one.
    pub fn commit_good_period(&mut self, len: usize, mixed: &[i64]) -> (r: bool)
        requires
            old(self).wf(),
            len <= old(self).period_bytes,
            mixed.len() == old(self).blend_frames(len as int) * old(self).channels,
        ensures
            final(self).wf(),
            final(self).same_stream(old(self)),
            r == (len == old(self).period_bytes),
            final(self).have_history == r,
            final(self).consecutive == 0,
            !final(self).concealed_last,
            !final(self).prepared,
            if r {
                &&& final(self).history@ == blended(
                    old(self).scratch@,
                    old(self).format,
                    mixed@,
                    mixed@.len() as int,
                )
                &&& final(self).scratch@ == old(self).history@
            } else {
                &&& final(self).history@ == old(self).history@
                &&& final(self).scratch@ == old(self).scratch@
            },
            final(self).hole() == Hole::after_good(len == old(self).period_bytes),
    {
        proof {
            self.blend_fits(len as int);
        }
        self.consecutive = 0;
        self.concealed_last = false;
        self.prepared = false;
        if len != self.period_bytes {
            self.have_history = false;
            return false;
        }
        blend(self.format, mixed, &mut self.scratch);
        std::mem::swap(&mut self.scratch, &mut self.history);
        self.have_history = true;
        true
    }

    /// Where the stream stands between its holes.
    pub open spec fn hole(&self) -> Hole {
        Hole {
            have_history: self.have_history,
            consecutive: self.consecutive as int,
            concealed_last: self.concealed_last,
            prepared: self.prepared,
        }
    }

    /// What stands in for a missing period.
    pub open spec fn concealed(&self) -> Conceal {
        if !self.have_history {
            Conceal::NoHistory
        } else if self.consecutive >= FADE_PERIODS {
            Conceal::Faded
        } else {
            Conceal::Fill {
                prepare: !self.prepared,
                gain: (FADE_PERIODS - self.consecutive) as u32,
            }
        }
    }

    /// What stands in for a missing period.
    pub fn conceal(&mut self) -> (r: Conceal)
        requires
            old(self).wf(),
        ensures
            final(self).wf(),
            final(self).same_stream(old(self)),
            r == old(self).concealed(),
            final(self).history@ == old(self).history@,
            final(self).scratch@ == old(self).scratch@,
            final(self).have_history == old(self).have_history,
            final(self).prepared == (old(self).prepared || r is Fill),
            final(self).concealed_last == (old(self).concealed_last || !(r is NoHistory)),
            final(self).consecutive == if r is NoHistory || old(self).consecutive == u32::MAX {
                old(self).consecutive
            } else {
                (old(self).consecutive + 1) as u32
            },
            final(self).hole() == old(self).hole().after_missed(),
    {
        if !self.have_history {
            return Conceal::NoHistory;
        }
        let before: u32 = self.consecutive;
        self.consecutive = before.saturating_add(1);
        self.concealed_last = true;
        if before >= FADE_PERIODS {
            return Conceal::Faded;
        }
        let prepare: bool = !self.prepared;
        self.prepared = true;
        Conceal::Fill { prepare, gain: FADE_PERIODS - before }
    }

    /// The lags between which the pitch is searched, where the period is long enough for any.
    pub open spec fn pitch_lags(&self) -> Option<(int, int)> {
        let low = self.frame_rate * MIN_PITCH_MS / 1000;
        let high = self.frame_rate * MAX_PITCH_MS / 1000;
        let half = self.frames_of() / 2;
        let min_lag = if low < 1 {
            1
        } else {
            low
        };
        let max_lag = if high < half {
            high
        } else {
            half
        };
        if max_lag <= min_lag {
            None
        } else {
            Some((min_lag, max_lag))
        }
    }

    /// The lags between which the pitch is searched. Where there are none, the whole history is one
    /// pitch period.
    pub fn pitch_period(&self) -> (r: Option<(usize, usize)>)
        requires
            self.wf(),
        ensures
            match self.pitch_lags() {
                Some((a, b)) => r matches Some((x, y)) && x == a && y == b,
                None => r is None,
            },
    {
        let low: u64 = self.frame_rate as u64 * MIN_PITCH_MS / 1000;
        let high: u64 = self.frame_rate as u64 * MAX_PITCH_MS / 1000;
        let half: usize = self.frames() / 2;
        let min_lag: u64 = if low < 1 {
            1
        } else {
            low
        };
        let max_lag: u64 = if high < half as u64 {
            high
        } else {
            half as u64
        };
        if max_lag <= min_lag {
            None
        } else {
            Some((min_lag as usize, max_lag as usize))
        }
    }

    /// Frames over which two windows overlap.
    pub open spec fn overlap_of(&self) -> int {
        let want = self.frame_rate * WSOLA_OVERLAP_MS / 1000;
        let want1 = if want < 1 {
            1
        } else {
            want
        };
        let quarter = self.frames_of() / 4;
        if want1 < quarter {
            want1
        } else {
            quarter
        }
    }

    /// The geometry of splicing windows: how far they overlap, and how far the window goes on
    /// behind that. Where nothing overlaps, the pitch period is repeated instead.
    pub open spec fn splice_of(&self) -> Option<(int, int)> {
        let overlap = self.overlap_of();
        let frames = self.frames_of();
        if overlap == 0 || frames < overlap * 2 {
            None
        } else {
            Some(
                (
                    overlap,
                    if frames / 2 - overlap < 1 {
                        1
                    } else {
                        frames / 2 - overlap
                    },
                ),
            )
        }
    }

    /// The geometry of splicing windows.
    pub fn wsola_splice(&self) -> (r: Option<(usize, usize)>)
        requires
            self.wf(),
        ensures
            match self.splice_of() {
                Some((a, b)) => r matches Some((x, y)) && x == a && y == b,
                None => r is None,
            },
    {
        let want: u64 = self.frame_rate as u64 * WSOLA_OVERLAP_MS / 1000;
        let want: u64 = if want < 1 {
            1
        } else {
            want
        };
        let frames: usize = self.frames();
        let quarter: usize = frames / 4;
        let overlap: usize = if want < quarter as u64 {
            want as usize
        } else {
            quarter
        };
        if overlap == 0 || frames < overlap * 2 {
            return None;
        }
        let hop: usize = if frames / 2 > overlap {
            frames / 2 - overlap
        } else {
            1
        };
        Some((overlap, hop))
    }

    /// The order of the filter.
    pub open spec fn order_of(&self) -> Option<usize> {
        let quarter = self.frames_of() / 4;
        if quarter < 2 {
            None
        } else if quarter < LPC_ORDER {
            Some(quarter as usize)
        } else {
            Some(LPC_ORDER)
        }
    }

    /// The part of the excitation that is repeated.
    pub open spec fn lag_of(&self, lag: int, order: int) -> int {
        let most = if self.frames_of() - order < 1 {
            1
        } else {
            self.frames_of() - order
        };
        if lag < 1 {
            1
        } else if lag > most {
            most
        } else {
            lag
        }
    }

    /// The order of the filter that continues the spectrum; none, where the history is too short to
    /// fit one.
    pub fn lpc_order(&self) -> (r: Option<usize>)
        requires
            self.wf(),
        ensures
            r == (if self.frames_of() / 4 < 2 {
                None
            } else if self.frames_of() / 4 < LPC_ORDER {
                Some((self.frames_of() / 4) as usize)
            } else {
                Some(LPC_ORDER)
            }),
            r == self.order_of(),
    {
        let quarter: usize = self.frames() / 4;
        if quarter < 2 {
            None
        } else if quarter < LPC_ORDER {
            Some(quarter)
        } else {
            Some(LPC_ORDER)
        }
    }

    /// The part of the excitation that is repeated: kept behind the first `order` frames, which were
    /// filtered with a history that is not there.
    pub fn lpc_lag(&self, lag: usize, order: usize) -> (r: usize)
        requires
            self.wf(),
        ensures
            ({
                let most = if self.frames_of() - order < 1 {
                    1
                } else {
                    self.frames_of() - order
                };
                r == if lag < 1 {
                    1
                } else if lag > most {
                    most
                } else {
                    lag as int
                }
            }),
            1 <= r <= self.frames_of(),
            r == self.lag_of(lag as int, order as int),
    {
        let frames: usize = self.frames();
        let most: usize = if frames > order {
            frames - order
        } else {
            1
        };
        if lag < 1 {
            1
        } else if lag > most {
            most
        } else {
            lag
        }
    }
}

/// Repeats the last `lag` frames of a history, in phase.
pub fn fill_repeat<T: Copy>(hist: &[T], channels: usize, frames: usize, lag: usize) -> (r: Vec<T>)
    requires
        hist.len() == frames * channels,
        lag <= frames,
    ensures
        r@.len() == hist@.len(),
        forall|f: int, c: int|
            #![trigger frame_at(f, c, channels as int)]
            0 <= f < frames && 0 <= c < channels ==> {
                let l = if lag == 0 {
                    1int
                } else {
                    lag as int
                };
                r@[frame_at(f, c, channels as int)] == hist@[frame_at(
                    frames - l + f % l,
                    c,
                    channels as int,
                )]
            },
        forall|f: int, c: int|
            #![trigger frame_at(f, c, channels as int)]
            0 <= f < frames && 0 <= c < channels ==> r@[frame_at(f, c, channels as int)]
                == hist@[frame_at(
                source_frame(frames as int, lag as int, f),
                c,
                channels as int,
            )],
{
    let lag1: usize = if lag == 0 {
        1
    } else {
        lag
    };
    let mut out: Vec<T> = Vec::new();
    if frames == 0 {
        assert(0 * channels == 0) by (nonlinear_arith);
        return out;
    }
    let start: usize = frames - lag1;
    let ghost ch = channels as int;
    let ghost want = |f: int, c: int| hist@[frame_at(frames - lag1 + f % lag1 as int, c, ch)];
    let mut frame: usize = 0;
    assert(0 * ch == 0) by (nonlinear_arith);
    while frame < frames
        invariant
            frame <= frames,
            1 <= lag1 <= frames,
            start == frames - lag1,
            ch == channels,
            hist.len() == frames * channels,
            hist.len() == hist@.len(),
            want == (|f: int, c: int| hist@[frame_at(frames - lag1 + f % lag1 as int, c, ch)]),
            out@.len() == frame * ch,
            forall|f: int, c: int|
                #![trigger frame_at(f, c, ch)]
                0 <= f < frame && 0 <= c < ch ==> out@[frame_at(f, c, ch)] == want(f, c),
        decreases frames - frame,
    {
        let src: usize = start + frame % lag1;
        proof {
            assert((frame + 1) * ch == frame * ch + ch) by (nonlinear_arith);
            assert(0 <= frame * ch) by (nonlinear_arith)
                requires
                    0 <= frame,
                    0 <= ch,
            ;
            assert((src + 1) * ch <= frames * ch && (src + 1) * ch == src * ch + ch && 0 <= src
                * ch) by (nonlinear_arith)
                requires
                    0 <= src,
                    src + 1 <= frames,
                    0 <= ch,
            ;
        }
        let mut c: usize = 0;
        while c < channels
            invariant
                c <= channels,
                frame < frames,
                1 <= lag1 <= frames,
                ch == channels,
                src == frames - lag1 + frame as int % lag1 as int,
                0 <= src * ch,
                src * ch + ch <= frames * ch,
                0 <= frame * ch,
                hist.len() == frames * channels,
                hist.len() == hist@.len(),
                want == (|f: int, c: int| hist@[frame_at(frames - lag1 + f % lag1 as int, c, ch)]),
                out@.len() == frame * ch + c,
                forall|f: int, k: int|
                    #![trigger frame_at(f, k, ch)]
                    0 <= f < frame && 0 <= k < ch ==> out@[frame_at(f, k, ch)] == want(f, k),
                forall|k: int|
                    #![trigger frame_at(frame as int, k, ch)]
                    0 <= k < c ==> out@[frame_at(frame as int, k, ch)] == want(frame as int, k),
            decreases channels - c,
        {
            let ghost prev = out@;
            out.push(hist[src * channels + c]);
            proof {
                assert forall|f: int, k: int|
                    #![trigger frame_at(f, k, ch)]
                    0 <= f < frame && 0 <= k < ch implies out@[frame_at(f, k, ch)] == want(f, k) by {
                    assert(prev[frame_at(f, k, ch)] == want(f, k));
                    assert(0 <= f * ch && f * ch + ch <= frame * ch) by (nonlinear_arith)
                        requires
                            0 <= f,
                            f + 1 <= frame,
                            0 <= ch,
                    ;
                }
                assert forall|k: int|
                    #![trigger frame_at(frame as int, k, ch)]
                    0 <= k < c + 1 implies out@[frame_at(frame as int, k, ch)] == want(
                    frame as int,
                    k,
                ) by {
                    if k < c {
                        assert(prev[frame_at(frame as int, k, ch)] == want(frame as int, k));
                    }
                }
            }
            c = c + 1;
        }
        proof {
            assert forall|f: int, k: int|
                #![trigger frame_at(f, k, ch)]
                0 <= f < frame + 1 && 0 <= k < ch implies out@[frame_at(f, k, ch)] == want(f, k) by {
                if f == frame {
                    assert(out@[frame_at(frame as int, k, ch)] == want(frame as int, k));
                }
            }
        }
        frame = frame + 1;
    }
    proof {
        assert forall|f: int, c: int|
            #![trigger frame_at(f, c, ch)]
            0 <= f < frames && 0 <= c < ch implies out@[frame_at(f, c, ch)] == hist@[frame_at(
            frames - lag1 + f % lag1 as int,
            c,
            ch,
        )] by {
            assert(out@[frame_at(f, c, ch)] == want(f, c));
        }
    }
    out
}

/// Where a sample of a frame is.
pub open spec fn frame_at(frame: int, channel: int, channels: int) -> int {
    frame * channels + channel
}

/// The gain at a frame of a concealed period, as a fraction.
pub open spec fn gain_at(gain: int, frames: int, frame: int) -> (int, int) {
    (gain * frames - frame, FADE_PERIODS * frames)
}

/// The gain at a frame of a concealed period, as a fraction: it falls within the period too.
pub fn fade(gain: u32, frames: u32, frame: u32) -> (r: (u64, u64))
    requires
        1 <= gain <= FADE_PERIODS,
        frame < frames,
    ensures
        r.0 == gain_at(gain as int, frames as int, frame as int).0,
        r.1 == gain_at(gain as int, frames as int, frame as int).1,
        0 < r.0 <= r.1,
{
    proof {
        assert(frames <= gain * frames <= 3 * frames) by (nonlinear_arith)
            requires
                1 <= gain <= 3,
                frames >= 0,
        ;
        assert(gain * frames <= 3 * 0xffff_ffff);
    }
    (gain as u64 * frames as u64 - frame as u64, FADE_PERIODS as u64 * frames as u64)
}

/// What comes in after a hole is mixed with the tail in its first frames, and is as it was behind
/// them; what comes in otherwise is as it was altogether.
pub proof fn only_the_first_frames_are_blended(
    c: UnderrunConcealer,
    pcm: Seq<u8>,
    mixed: Seq<i64>,
    i: int,
)
    requires
        c.wf(),
        pcm.len() == c.period_bytes,
        mixed.len() == c.blend_frames(c.period_bytes as int) * c.channels,
    ensures
        ({
            let out = blended(pcm, c.format, mixed, mixed.len() as int);
            let frame = c.channels * c.format.width();
            &&& out.len() == c.period_bytes
            &&& !c.concealed_last ==> out == pcm
            &&& c.blend_frames(c.period_bytes as int) * frame <= i < out.len() ==> out[i] == pcm[i]
        }),
{
    let b = c.blend_frames(c.period_bytes as int);
    let w = c.format.width();
    assert(b * c.channels * w == b * (c.channels * w)) by (nonlinear_arith);
    c.blend_fits(c.period_bytes as int);
    if !c.concealed_last {
        assert(0 * c.channels == 0) by (nonlinear_arith);
        assert(blended(pcm, c.format, mixed, 0) =~= pcm);
    }
}

/// The fade has no step: where one concealed period ends, the next one begins.
pub proof fn the_fade_is_one_slope(gain: int, frames: int)
    requires
        1 < gain <= FADE_PERIODS,
        frames > 0,
    ensures
        gain_at(gain, frames, frames) == gain_at(gain - 1, frames, 0),
        forall|f: int, g: int|
            0 <= f < g <= frames ==> (#[trigger] gain_at(gain, frames, g)).0 < (#[trigger] gain_at(
                gain,
                frames,
                f,
            )).0,
        gain_at(1, frames, frames).0 == 0,
        gain_at(FADE_PERIODS as int, frames, 0).0 == gain_at(FADE_PERIODS as int, frames, 0).1,
{
    assert((gain - 1) * frames == gain * frames - frames) by (nonlinear_arith);
}

/// The search for the pitch stays in the history: the window at its end, and the same window any of
/// the lags before.
pub proof fn the_pitch_search_stays_inside(c: UnderrunConcealer, lag: int, i: int)
    requires
        c.wf(),
        c.pitch_lags() matches Some((low, high)) && low <= lag <= high && 0 <= i < high,
    ensures
        c.pitch_lags() matches Some((low, high)) && {
            let at = c.frames_of() - high + i;
            0 <= at - lag <= at < c.frames_of()
        },
{
    let high = c.pitch_lags().unwrap().1;
    assert(high <= c.frames_of() / 2);
}

/// A spliced window lies in the history, wherever it may begin.
pub proof fn spliced_windows_stay_inside(c: UnderrunConcealer, at: int)
    requires
        c.wf(),
        c.splice_of() matches Some((overlap, hop)) && 0 <= at <= c.frames_of() - (overlap + hop),
    ensures
        c.splice_of() matches Some((overlap, hop)) && {
            &&& 1 <= overlap
            &&& 1 <= hop
            &&& overlap + hop < c.frames_of()
            &&& at + overlap + hop <= c.frames_of()
        },
{
}

/// Without a good period in between, a hole is filled for [`FADE_PERIODS`] periods at most.
pub proof fn concealment_fades_out(c: UnderrunConcealer)
    requires
        c.consecutive >= FADE_PERIODS,
    ensures
        !(c.concealed() is Fill),
{
}

/// The frame that a repeated one is taken from.
pub open spec fn source_frame(frames: int, lag: int, f: int) -> int {
    let l = if lag == 0 {
        1int
    } else {
        lag
    };
    frames - l + f % l
}

/// A repeated pitch period is the last one of the history, whole and from its start, over and over:
/// frames that are one pitch period apart are the same, and neighbours stay neighbours within it.
pub proof fn the_last_pitch_period_is_repeated(frames: int, lag: int, f: int)
    requires
        0 < lag <= frames,
        0 <= f,
    ensures
        f < lag ==> source_frame(frames, lag, f) == frames - lag + f,
        source_frame(frames, lag, f + lag) == source_frame(frames, lag, f),
        frames - lag <= source_frame(frames, lag, f) < frames,
{
    if f < lag {
        lemma_small_mod(f as nat, lag as nat);
    }
    lemma_mod_add_multiples_vanish(f, lag);
    lemma_mod_bound(f, lag);
    assert((lag + f) % lag == f % lag);
}

/// A sample is a number in two's complement with its low byte first: eight bits are moved up by half
/// their range, and 24 bits are in the low three bytes, whatever the fourth is.
pub proof fn samples_are_numbers(s: Seq<u8>)
    ensures
        s.len() == 1 ==> sample_value(SampleFormat::U8, s) == s[0] - 128,
        s.len() == 2 ==> {
            let v = sample_value(SampleFormat::S16LE, s);
            &&& -0x8000 <= v < 0x8000
            &&& (v - s[0] - s[1] * 0x100) % 0x1_0000 == 0
        },
        s.len() == 4 ==> {
            let v = sample_value(SampleFormat::S24LE, s);
            &&& -0x80_0000 <= v < 0x80_0000
            &&& (v - s[0] - s[1] * 0x100 - s[2] * 0x1_0000) % 0x100_0000 == 0
        },
        s.len() == 4 ==> {
            let v = sample_value(SampleFormat::S32LE, s);
            &&& -0x8000_0000 <= v < 0x8000_0000
            &&& (v - s[0] - s[1] * 0x100 - s[2] * 0x1_0000 - s[3] * 0x100_0000) % 0x1_0000_0000
                == 0
            &&& sample_value(SampleFormat::F32LE, s) == v
        },
{
    let r = s.reverse();
    if s.len() == 1 {
        reveal_with_fuel(bytes::be_value, 2);
        assert(bytes::be_value(r.drop_last()) == 0);
        assert(r.last() == s[0]);
    }
    if s.len() == 2 {
        bytes::be_value_2(r);
    }
    if s.len() == 4 {
        bytes::be_value_4(r);
    }
}

/// A number that a format holds is kept, and one that it does not hold becomes the nearest that it
/// does.
pub proof fn numbers_are_clamped(format: SampleFormat, v: int, w: int)
    ensures
        format.lowest() <= clamped(format, v) <= format.highest(),
        format.lowest() <= v <= format.highest() ==> clamped(format, v) == v,
        v <= w ==> clamped(format, v) <= clamped(format, w),
        format.lowest() == match format {
            SampleFormat::U8 => -128int,
            SampleFormat::S16LE => -32768int,
            SampleFormat::S24LE => -8388608int,
            SampleFormat::S32LE | SampleFormat::F32LE => -2147483648int,
        },
        format.highest() + format.lowest() == -1,
{
}

/// A sample that was blended reads as the number that it was mixed to, as far as the format holds it.
pub proof fn blended_samples_read_back(
    pcm: Seq<u8>,
    format: SampleFormat,
    mixed: Seq<i64>,
    n: int,
    k: int,
)
    requires
        0 <= k < n <= mixed.len(),
        n * format.width() <= pcm.len(),
    ensures
        sample_value(
            format,
            blended(pcm, format, mixed, n).subrange(
                k * format.width(),
                k * format.width() + format.width(),
            ),
        ) == clamped(format, mixed[k] as int),
        blended(pcm, format, mixed, n).skip(n * format.width()) == pcm.skip(n * format.width()),
{
    let w = format.width();
    let out = blended(pcm, format, mixed, n);
    let want = sample_bytes_of(format, clamped(format, mixed[k] as int));
    samples_read_back(format, clamped(format, mixed[k] as int));
    assert(0 <= k * w && k * w + w <= n * w) by (nonlinear_arith)
        requires
            0 <= k,
            k + 1 <= n,
            w >= 1,
    ;
    assert forall|j: int| 0 <= j < w implies out[k * w + j] == want[j] by {
        assert(w * k == k * w) by (nonlinear_arith);
        lemma_fundamental_div_mod_converse(k * w + j, w, k, j);
    }
    assert(out.subrange(k * w, k * w + w) =~= want);
    assert(out.skip(n * w) =~= pcm.skip(n * w));
}

/// Where a stream stands between its holes.
pub struct Hole {
    pub have_history: bool,
    pub consecutive: int,
    pub concealed_last: bool,
    pub prepared: bool,
}

impl Hole {
    /// After a period that came in: only a whole one can be continued.
    pub open spec fn after_good(whole: bool) -> Hole {
        Hole { have_history: whole, consecutive: 0, concealed_last: false, prepared: false }
    }

    /// After a period that was missing.
    pub open spec fn after_missed(self) -> Hole {
        if !self.have_history {
            self
        } else {
            Hole {
                have_history: true,
                consecutive: if self.consecutive >= u32::MAX {
                    self.consecutive
                } else {
                    self.consecutive + 1
                },
                concealed_last: true,
                prepared: self.prepared || self.consecutive < FADE_PERIODS,
            }
        }
    }

    /// After so many missing periods in a row.
    pub open spec fn after_missing(self, n: nat) -> Hole
        decreases n,
    {
        if n == 0 {
            self
        } else {
            self.after_missing((n - 1) as nat).after_missed()
        }
    }
}

/// Behind a whole period, the first missing one begins at full gain and builds what is derived from
/// the history, the next two begin a third lower each, and what is missing after them is silent. What
/// comes in then is blended with the tail. Behind a part of a period nothing is continued.
pub proof fn holes_fade_in_three_periods(c: UnderrunConcealer, whole: bool, n: nat)
    requires
        n < u32::MAX,
        c.hole() == Hole::after_good(whole).after_missing(n),
    ensures
        !whole ==> c.concealed() is NoHistory && !c.concealed_last,
        whole && n < 3 ==> c.concealed() == (Conceal::Fill {
            prepare: n == 0,
            gain: (3 - n) as u32,
        }),
        whole && n >= 3 ==> c.concealed() is Faded,
        whole ==> (c.concealed_last <==> n > 0),
        n == 0 ==> c.blend_frames(c.period_bytes as int) == 0,
    decreases n,
{
    holes_count(whole, n);
}

/// What a hole of so many periods comes to.
proof fn holes_count(whole: bool, n: nat)
    requires
        n < u32::MAX,
    ensures
        ({
            let h = Hole::after_good(whole).after_missing(n);
            &&& h.have_history == whole
            &&& whole ==> h.consecutive == n
            &&& h.concealed_last == (whole && n > 0)
            &&& h.prepared == (whole && n > 0)
        }),
    decreases n,
{
    if n > 0 {
        holes_count(whole, (n - 1) as nat);
    }
}

/// Two milliseconds are blended, or the period where it is shorter; a part of a period is not blended.
pub proof fn two_milliseconds_are_blended(c: UnderrunConcealer, len: int)
    requires
        c.wf(),
    ensures
        c.blend_frames(len) > 0 ==> len == c.period_bytes && c.concealed_last,
        c.blend_frames(len) <= c.frames_of(),
        c.blend_frames(len) * 1000 <= c.frame_rate * 2,
        len == c.period_bytes && c.concealed_last ==> c.blend_frames(len) == c.frames_of() || (
        c.blend_frames(len) + 1) * 1000 > c.frame_rate * 2,
        c.frames_of() * (c.channels * c.format.width()) == c.period_bytes,
{
    let p = c.period_bytes as int;
    let f = c.channels * c.format.width();
    let w = c.format.width();
    assert(f >= 1) by (nonlinear_arith)
        requires
            f == c.channels * w,
            c.channels >= 1,
            w >= 1,
    ;
    lemma_fundamental_div_mod(p, f);
    lemma_div_pos_is_pos(p, f);
    assert(f * (p / f) == (p / f) * f) by (nonlinear_arith);
}

/// The pitch is searched from two to twenty milliseconds, at most in half of the history, and not at
/// all where nothing is between.
pub proof fn the_pitch_is_searched_between_bounds(c: UnderrunConcealer)
    ensures
        c.pitch_lags() matches Some((low, high)) ==> {
            &&& 1 <= low < high
            &&& low == 1 || low * 1000 <= c.frame_rate * 2
            &&& (low + 1) * 1000 > c.frame_rate * 2
            &&& high * 1000 <= c.frame_rate * 20
            &&& high * 2 <= c.frames_of()
            &&& (high + 1) * 1000 > c.frame_rate * 20 || (high + 1) * 2 > c.frames_of()
        },
        c.frame_rate >= 1000 && c.frame_rate * 8 <= c.frames_of() * 1000 ==> c.pitch_lags() is Some,
{
}

/// Two windows overlap for five milliseconds or a frame, but for a quarter of the history at most; a
/// window and its overlap are half of the history.
pub proof fn windows_are_half_of_the_history(c: UnderrunConcealer)
    requires
        c.frames_of() >= 0,
    ensures
        c.splice_of() matches Some((overlap, hop)) ==> {
            &&& overlap >= 1
            &&& overlap == 1 || overlap * 1000 <= c.frame_rate * 5
            &&& overlap * 4 <= c.frames_of()
            &&& (overlap + 1) * 1000 > c.frame_rate * 5 || (overlap + 1) * 4 > c.frames_of()
            &&& overlap + hop == c.frames_of() / 2
        },
        c.splice_of() is None <==> c.frames_of() < 4,
{
}

/// The filter has an order of sixteen, or of a quarter of the history where that is less; below an
/// order of two there is none.
pub proof fn filters_have_an_order_of_sixteen(c: UnderrunConcealer)
    requires
        c.frames_of() >= 0,
    ensures
        c.order_of() is None <==> c.frames_of() < 8,
        c.order_of() matches Some(n) ==> {
            &&& 2 <= n <= 16
            &&& n * 4 <= c.frames_of()
            &&& n == 16 || (n + 1) * 4 > c.frames_of()
        },
{
}

/// What is repeated of the excitation is the pitch period, or what there is of it behind the first
/// frames.
pub proof fn excitations_repeat_the_pitch(c: UnderrunConcealer, lag: int, order: int)
    requires
        0 <= order,
    ensures
        c.lag_of(lag, order) >= 1,
        order < c.frames_of() ==> c.lag_of(lag, order) + order <= c.frames_of(),
        1 <= lag && lag + order <= c.frames_of() ==> c.lag_of(lag, order) == lag,
        lag + order > c.frames_of() > order ==> c.lag_of(lag, order) + order == c.frames_of() || lag
            < 1,
{
}

/// The first concealed period begins at full gain, and each takes off a third.
pub proof fn the_fade_takes_three_periods(frames: int, n: int, frame: int)
    requires
        frames > 0,
        0 <= n < 3,
        0 <= frame <= frames,
    ensures
        gain_at(3 - n, frames, frame).1 == 3 * frames,
        gain_at(3 - n, frames, frame).0 == 3 * frames - (n * frames + frame),
{
    assert((3 - n) * frames == 3 * frames - n * frames) by (nonlinear_arith);
}

} // verus!
