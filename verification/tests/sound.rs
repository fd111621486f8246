//! The sound device: what it offers, how it is configured, and how it conceals what is missing.

use droidvm_core::snd::config;
use droidvm_core::snd::config::{
    DroidVmSndConfig, DroidVmSndEndpointKind, DroidVmSndPreferred, Endpoint, Lookups, ProbeCache,
};
use droidvm_core::snd::data;
use droidvm_core::snd::data::{DeviceCaps, NativeConfig};
use droidvm_core::snd::device::{HostEndpoints, RestoreError, VirtioSnd};
use droidvm_core::snd::parameters::{
    resize_parameters_pcm_device_config, CrasClientType, CrasSocketType, CrasStreamType, Error,
    PCMDeviceParameters, Parameters, StreamEffect, StreamSourceBackend, SysStreamSourceBackend,
    UnderrunMode,
};
use droidvm_core::snd::sys;
use droidvm_core::snd::sys::AaudioEndpoint;
use droidvm_core::snd::underrun;
use droidvm_core::snd::underrun::{
    Conceal, SampleFormat, UnderrunConcealer, BLEND_MS, FADE_PERIODS, LPC_ORDER,
};
use droidvm_core::snd::worker::{
    restore_actions, run_worker, run_worker_once, Ended, LoopState, StepResult, StreamAction,
    StreamReset, WorkerStep,
};
use droidvm_core::snd::{
    PcmInfo, VIRTIO_SND_D_INPUT, VIRTIO_SND_D_OUTPUT, VIRTIO_SND_R_PCM_PREPARE,
    VIRTIO_SND_R_PCM_START, VIRTIO_SND_R_PCM_STOP,
};

const LPC_RIDGE: f64 = 1.000_001;
const LPC_EXPANSION: f64 = 0.9995;
const LPC_RUNAWAY: f64 = 4.0;

/// The sample as a float in [-1, 1].
fn decode(format: SampleFormat, pcm: &[u8], index: usize) -> f32 {
    let v = underrun::decode(format, pcm, index);
    match format {
        SampleFormat::U8 => v as f32 / 128.0,
        SampleFormat::S16LE => v as f32 / 32_768.0,
        SampleFormat::S24LE => v as f32 / 8_388_608.0,
        SampleFormat::S32LE => v as f32 / 2_147_483_648.0,
        SampleFormat::F32LE => f32::from_bits(v as u32),
    }
}

/// The number that a sample holds for a float.
fn number(format: SampleFormat, value: f32) -> i64 {
    let v = value.clamp(-1.0, 1.0);
    match format {
        SampleFormat::U8 => (v * 128.0 + 128.0).clamp(0.0, 255.0) as i64 - 128,
        SampleFormat::S16LE => (v * 32_768.0) as i64,
        SampleFormat::S24LE => (v * 8_388_608.0) as i64,
        SampleFormat::S32LE => (v as f64 * 2_147_483_648.0) as i64,
        SampleFormat::F32LE => v.to_bits() as i32 as i64,
    }
}

fn encode(format: SampleFormat, value: f32, pcm: &mut [u8], index: usize) {
    underrun::encode(format, number(format, value), pcm, index);
}

/// A concealer together with the signals that it is computed from.
struct Concealer {
    core: UnderrunConcealer,
    tail: Vec<f32>,
    hist: Vec<f32>,
    mono: Vec<f32>,
    fill: Vec<f32>,
    lag: usize,
    template: Vec<f32>,
    lpc_a: Vec<f64>,
    lpc_state: Vec<f64>,
    lpc_res: Vec<f32>,
    lpc_pos: usize,
    lpc_order: Option<usize>,
    lpc_ok: bool,
}

impl Concealer {
    fn new(
        mode: UnderrunMode,
        channels: usize,
        frame_rate: u32,
        period_bytes: usize,
        format: SampleFormat,
    ) -> Option<Concealer> {
        channels.checked_mul(format.sample_bytes())?;
        let core = UnderrunConcealer::new(mode, channels, frame_rate, period_bytes, format)?;
        let frames = core.frames();
        let samples = frames * channels;
        Some(Concealer {
            core,
            tail: vec![0.0; samples],
            hist: vec![0.0; samples],
            mono: vec![0.0; frames],
            fill: vec![0.0; samples],
            lag: 0,
            template: Vec::new(),
            lpc_a: vec![0.0; channels * LPC_ORDER],
            lpc_state: vec![0.0; channels * LPC_ORDER],
            lpc_res: vec![0.0; samples],
            lpc_pos: 0,
            lpc_order: None,
            lpc_ok: false,
        })
    }

    fn period_bytes(&self) -> usize {
        self.core.period_bytes()
    }

    fn scratch_mut(&mut self) -> &mut [u8] {
        self.core.scratch_mut()
    }

    /// Takes in `len` bytes of the scratch buffer, and gives what the endpoint gets of them.
    fn commit_good_period(&mut self, len: usize) -> &[u8] {
        let len = len.min(self.core.period_bytes());
        let blend = self.core.blend_in(len);
        let (format, channels) = (self.core.format, self.core.channels);
        let mut mixed = Vec::new();
        for frame in 0..blend {
            let (num, den) = underrun::blend_weight(frame, blend);
            let w = num as f32 / den as f32;
            for idx in frame * channels..(frame + 1) * channels {
                let real = decode(format, &self.core.scratch, idx);
                mixed.push(number(format, real * w + self.tail[idx] * (1.0 - w)));
            }
        }
        if self.core.commit_good_period(len, &mixed) {
            &self.core.history[..len]
        } else {
            self.tail.fill(0.0);
            &self.core.scratch[..len]
        }
    }

    /// The continuation of the last good period, unless the period is silent.
    fn conceal(&mut self) -> Option<&[u8]> {
        let (prepare, gain) = match self.core.conceal() {
            Conceal::NoHistory => return None,
            Conceal::Faded => {
                self.tail.fill(0.0);
                return None;
            }
            Conceal::Fill { prepare, gain } => (prepare, gain),
        };
        if prepare {
            self.prepare();
        }
        match self.core.mode {
            UnderrunMode::Silence => return None,
            UnderrunMode::Repeat => self.fill_repeat(),
            UnderrunMode::Wsola => self.fill_wsola(),
            UnderrunMode::Lpc => self.fill_lpc(),
        }
        let frames = self.core.frames();
        let (format, channels) = (self.core.format, self.core.channels);
        for frame in 0..frames {
            let (num, den) = underrun::fade(gain, frames as u32, frame as u32);
            let gain = (num as f32 / den as f32).clamp(0.0, 1.0);
            for idx in frame * channels..(frame + 1) * channels {
                let v = self.fill[idx] * gain;
                self.tail[idx] = v;
                encode(format, v, self.core.scratch_mut(), idx);
            }
        }
        Some(&self.core.scratch)
    }

    fn prepare(&mut self) {
        let frames = self.core.frames();
        let channels = self.core.channels;
        for i in 0..self.hist.len() {
            self.hist[i] = decode(self.core.format, &self.core.history, i);
        }
        for frame in 0..frames {
            self.mono[frame] = self.hist[frame * channels..(frame + 1) * channels].iter().sum();
        }
        self.lag = self.pitch_period();
        match self.core.mode {
            UnderrunMode::Wsola => {
                if let Some((overlap, _)) = self.core.wsola_splice() {
                    self.template = self.hist[(frames - overlap) * channels..].to_vec();
                }
            }
            UnderrunMode::Lpc => self.fit_lpc(),
            UnderrunMode::Repeat | UnderrunMode::Silence => {}
        }
    }

    fn fill_repeat(&mut self) {
        let frames = self.core.frames();
        self.fill = underrun::fill_repeat(&self.hist, self.core.channels, frames, self.lag);
    }

    fn fill_wsola(&mut self) {
        let frames = self.core.frames();
        let channels = self.core.channels;
        let (overlap, hop) = match self.core.wsola_splice() {
            Some(splice) => splice,
            None => return self.fill_repeat(),
        };
        let mut at = 0;
        while at < frames {
            let src = self.best_offset(overlap, hop);
            let n = (frames - at).min(overlap + hop);
            for frame in 0..n {
                for ch in 0..channels {
                    let s = self.hist[(src + frame) * channels + ch];
                    self.fill[(at + frame) * channels + ch] = if frame < overlap {
                        let w = (frame as f32 + 1.0) / (overlap as f32 + 1.0);
                        s * w + self.template[frame * channels + ch] * (1.0 - w)
                    } else {
                        s
                    };
                }
            }
            at += n;
            if at >= overlap {
                let end = at * channels;
                self.template.copy_from_slice(&self.fill[end - overlap * channels..end]);
            }
        }
    }

    /// The place in the history that best continues what was emitted last.
    fn best_offset(&self, overlap: usize, hop: usize) -> usize {
        let last = self.core.frames().saturating_sub(overlap + hop);
        if last == 0 {
            return 0;
        }
        let wanted: Vec<f32> =
            self.template.chunks(self.core.channels).map(|c| c.iter().sum()).collect();
        let mut best_at = 0;
        let mut best_score = f64::MIN;
        for at in 0..=last {
            if let Some(score) = similarity(&wanted, &self.mono[at..at + overlap]) {
                if score > best_score {
                    best_score = score;
                    best_at = at;
                }
            }
        }
        best_at
    }

    /// Fits one all-pole filter to each channel, and finds what drove it.
    fn fit_lpc(&mut self) {
        let frames = self.core.frames();
        let channels = self.core.channels;
        self.lpc_ok = false;
        self.lpc_pos = 0;
        self.lpc_order = self.core.lpc_order();
        let order = match self.lpc_order {
            Some(order) => order,
            None => return,
        };
        for ch in 0..channels {
            let windowed: Vec<f64> = (0..frames)
                .map(|f| {
                    let turn = std::f64::consts::TAU * f as f64 / (frames as f64 - 1.0);
                    self.hist[f * channels + ch] as f64 * (0.54 - 0.46 * turn.cos())
                })
                .collect();
            let mut r: Vec<f64> = (0..=order)
                .map(|lag| (lag..frames).map(|f| windowed[f] * windowed[f - lag]).sum())
                .collect();
            let slot = ch * LPC_ORDER..ch * LPC_ORDER + order;
            if r[0] <= 0.0 {
                self.lpc_a[slot.clone()].fill(0.0);
                self.lpc_state[slot].fill(0.0);
                for f in 0..frames {
                    self.lpc_res[f * channels + ch] = 0.0;
                }
                continue;
            }
            r[0] *= LPC_RIDGE;
            let mut a = levinson(&r, order);
            let mut gamma = LPC_EXPANSION;
            for coeff in a.iter_mut() {
                *coeff *= gamma;
                gamma *= LPC_EXPANSION;
            }
            self.lpc_a[slot].copy_from_slice(&a);
            for f in 0..frames {
                let mut e = self.hist[f * channels + ch] as f64;
                for (k, coeff) in a.iter().enumerate().take(f) {
                    e += coeff * self.hist[(f - 1 - k) * channels + ch] as f64;
                }
                self.lpc_res[f * channels + ch] = e as f32;
            }
            for k in 0..order {
                self.lpc_state[ch * LPC_ORDER + k] =
                    self.hist[(frames - order + k) * channels + ch] as f64;
            }
        }
        self.lpc_ok = true;
    }

    fn fill_lpc(&mut self) {
        let order = match self.lpc_order {
            Some(order) if self.lpc_ok => order,
            _ => return self.fill_repeat(),
        };
        let frames = self.core.frames();
        let channels = self.core.channels;
        let lag = self.core.lpc_lag(self.lag, order);
        let base = frames - lag;
        let start = self.lpc_pos;
        for ch in 0..channels {
            for frame in 0..frames {
                let slot = ch * LPC_ORDER..ch * LPC_ORDER + order;
                let mut acc = self.lpc_res[(base + (start + frame) % lag) * channels + ch] as f64;
                for (coeff, x) in
                    self.lpc_a[slot.clone()].iter().zip(self.lpc_state[slot.clone()].iter().rev())
                {
                    acc -= coeff * x;
                }
                if !acc.is_finite() || acc.abs() > LPC_RUNAWAY {
                    self.lpc_ok = false;
                    return self.fill_repeat();
                }
                let state = &mut self.lpc_state[slot];
                state.rotate_left(1);
                state[order - 1] = acc;
                self.fill[frame * channels + ch] = acc as f32;
            }
        }
        self.lpc_pos = start + frames;
    }

    /// The lag at which the end of the history is most like what is before it.
    fn pitch_period(&self) -> usize {
        let frames = self.core.frames();
        let (low, high) = match self.core.pitch_period() {
            Some(lags) => lags,
            None => return frames,
        };
        let base = frames - high;
        let mut best_lag = frames;
        let mut best_score = f64::MIN;
        for lag in low..=high {
            let before = &self.mono[base - lag..frames - lag];
            if let Some(score) = similarity(&self.mono[base..], before) {
                if score > best_score {
                    best_score = score;
                    best_lag = lag;
                }
            }
        }
        best_lag
    }
}

/// The correlation of two signals over the energy of the second, if it has any.
fn similarity(a: &[f32], b: &[f32]) -> Option<f64> {
    let mut dot = 0f64;
    let mut energy = 0f64;
    for (a, b) in a.iter().zip(b) {
        dot += *a as f64 * *b as f64;
        energy += *b as f64 * *b as f64;
    }
    if energy <= 0.0 {
        None
    } else {
        Some(dot / energy.sqrt())
    }
}

/// The coefficients of the filter with the autocorrelation `r`, without the leading one.
fn levinson(r: &[f64], order: usize) -> Vec<f64> {
    let mut a = vec![0f64; order];
    let mut error = r[0];
    if error <= 0.0 {
        return a;
    }
    for i in 0..order {
        let mut rr = -r[i + 1];
        for j in 0..i {
            rr -= a[j] * r[i - j];
        }
        rr /= error;
        a[i] = rr;
        for j in 0..(i + 1) / 2 {
            let (t1, t2) = (a[j], a[i - 1 - j]);
            a[j] = t1 + rr * t2;
            a[i - 1 - j] = t2 + rr * t1;
        }
        error -= rr * rr * error;
        if error < 0.001 * r[0] {
            break;
        }
    }
    a
}

const RATE: u32 = 48000;
const CHANNELS: usize = 2;
const FRAMES: usize = 512;
const ALL: [UnderrunMode; 3] = [UnderrunMode::Repeat, UnderrunMode::Wsola, UnderrunMode::Lpc];
const FORMATS: [SampleFormat; 5] = [
    SampleFormat::U8,
    SampleFormat::S16LE,
    SampleFormat::S24LE,
    SampleFormat::S32LE,
    SampleFormat::F32LE,
];

fn period(format: SampleFormat) -> usize {
    FRAMES * CHANNELS * format.sample_bytes()
}

fn concealer(mode: UnderrunMode, format: SampleFormat) -> Concealer {
    Concealer::new(mode, CHANNELS, RATE, period(format), format).expect("built")
}

fn render(format: SampleFormat, offset: usize, f: &dyn Fn(f64) -> f64) -> Vec<u8> {
    let mut out = vec![0u8; period(format)];
    for frame in 0..FRAMES {
        let v = f((offset + frame) as f64 / RATE as f64) as f32;
        for ch in 0..CHANNELS {
            encode(format, v, &mut out, frame * CHANNELS + ch);
        }
    }
    out
}

fn tone(format: SampleFormat, offset: usize, freq: f64) -> Vec<u8> {
    render(format, offset, &move |t| {
        0.25 * (std::f64::consts::TAU * freq * t).sin()
    })
}

fn voice(format: SampleFormat, offset: usize) -> Vec<u8> {
    render(format, offset, &|t| {
        let mut v = 0.0;
        for (h, a) in [(1.0, 1.0), (2.0, 0.6), (7.0, 0.35), (12.0, 0.2), (20.0, 0.1)] {
            v += a * (std::f64::consts::TAU * 120.0 * h * t).sin();
        }
        0.25 * v / 2.25
    })
}

fn decoded(format: SampleFormat, pcm: &[u8]) -> Vec<f32> {
    (0..pcm.len() / format.sample_bytes())
        .map(|i| decode(format, pcm, i))
        .collect()
}

fn rms(s: &[f32]) -> f64 {
    (s.iter().map(|&v| (v as f64) * (v as f64)).sum::<f64>() / s.len() as f64).sqrt()
}

fn feed(c: &mut Concealer, pcm: &[u8]) {
    c.scratch_mut().copy_from_slice(pcm);
    c.commit_good_period(pcm.len());
}

#[test]
fn silence_has_no_concealer() {
    for format in FORMATS {
        assert!(Concealer::new(
            UnderrunMode::Silence,
            CHANNELS,
            RATE,
            period(format),
            format
        )
        .is_none());
    }
}

#[test]
fn ragged_geometry_is_refused() {
    for mode in ALL {
        assert!(
            Concealer::new(mode, CHANNELS, RATE, 4095, SampleFormat::S16LE).is_none()
        );
        assert!(Concealer::new(mode, 0, RATE, 4096, SampleFormat::S16LE).is_none());
    }
}

#[test]
fn no_history_means_silence() {
    for mode in ALL {
        assert!(concealer(mode, SampleFormat::S16LE).conceal().is_none(), "{mode:?}");
    }
}

#[test]
fn every_mode_continues_a_tone_in_every_format() {
    for format in FORMATS {
        for mode in ALL {
            let mut c = concealer(mode, format);
            feed(&mut c, &tone(format, 0, 440.0));
            let out = c.conceal().expect("concealed").to_vec();
            let level = rms(&decoded(format, &out));
            assert!(level > 0.06, "{mode:?}/{format:?} produced {level}");
            assert!(level < 0.19, "{mode:?}/{format:?} produced {level}");
        }
    }
}

#[test]
fn every_mode_fades_to_silence() {
    for mode in ALL {
        let format = SampleFormat::S16LE;
        let mut c = concealer(mode, format);
        feed(&mut c, &tone(format, 0, 440.0));
        let mut levels = Vec::new();
        for _ in 0..FADE_PERIODS {
            match c.conceal() {
                Some(pcm) => levels.push(rms(&decoded(format, pcm))),
                None => levels.push(0.0),
            }
        }
        assert!(c.conceal().is_none(), "{mode:?} still concealing after the fade");
        for pair in levels.windows(2) {
            assert!(pair[1] < pair[0], "{mode:?} did not decay: {levels:?}");
        }
    }
}

#[test]
fn every_mode_continues_silence_as_silence() {
    for format in FORMATS {
        for mode in ALL {
            let mut c = concealer(mode, format);
            let quiet = render(format, 0, &|_| 0.0);
            feed(&mut c, &quiet);
            if let Some(pcm) = c.conceal() {
                assert_eq!(pcm, &quiet[..], "{mode:?}/{format:?} invented audio from silence");
            }
        }
    }
}

#[test]
fn wsola_does_not_lock_to_one_window() {
    let format = SampleFormat::S16LE;
    let mut phase = 0f64;
    let mut sweep = vec![0u8; period(format)];
    for frame in 0..FRAMES {
        let freq = 200.0 + 2000.0 * (frame as f64 / FRAMES as f64);
        phase += std::f64::consts::TAU * freq / RATE as f64;
        for ch in 0..CHANNELS {
            encode(format, (0.25 * phase.sin()) as f32, &mut sweep, frame * CHANNELS + ch);
        }
    }
    let mut c = concealer(UnderrunMode::Wsola, format);
    feed(&mut c, &sweep);
    let out = decoded(format, c.conceal().expect("concealed"));
    let half = out.len() / 2;
    let diff: f64 = (0..half)
        .map(|i| (out[i] as f64 - out[half + i] as f64).abs())
        .sum::<f64>()
        / half as f64;
    assert!(diff > 0.003, "halves differ by only {diff}");
}

#[test]
fn lpc_holds_the_pitch_of_a_tone() {
    let format = SampleFormat::S32LE;
    let mut c = concealer(UnderrunMode::Lpc, format);
    feed(&mut c, &tone(format, 0, 1000.0));
    let out = decoded(format, c.conceal().expect("concealed"));
    let ch0: Vec<f32> = out.iter().step_by(CHANNELS).copied().collect();
    let crossings = ch0.windows(2).filter(|w| (w[0] >= 0.0) != (w[1] >= 0.0)).count();
    assert!((16..=27).contains(&crossings), "{crossings} crossings");
}

#[test]
fn the_modes_do_not_collapse_into_each_other() {
    let format = SampleFormat::S16LE;
    let mut outs = Vec::new();
    for mode in ALL {
        let mut c = concealer(mode, format);
        feed(&mut c, &voice(format, 0));
        outs.push(decoded(format, c.conceal().expect("concealed")));
    }
    for (i, j) in [(0, 1), (0, 2), (1, 2)] {
        let diff: f64 = outs[i]
            .iter()
            .zip(outs[j].iter())
            .map(|(&a, &b)| (a as f64 - b as f64).abs())
            .sum::<f64>()
            / outs[i].len() as f64;
        assert!(diff > 0.006, "modes {i} and {j} differ by only {diff}");
    }
}

#[test]
fn resuming_real_audio_is_blended() {
    let format = SampleFormat::S16LE;
    let mut c = concealer(UnderrunMode::Repeat, format);
    feed(&mut c, &tone(format, 0, 440.0));
    c.conceal().expect("concealed");
    let resumed = tone(format, FRAMES / 3, 440.0);
    c.scratch_mut().copy_from_slice(&resumed);
    let out = c.commit_good_period(resumed.len()).to_vec();
    let blend = (RATE as usize * BLEND_MS as usize / 1000).min(FRAMES) * CHANNELS * format.sample_bytes();
    assert_ne!(out[..format.sample_bytes()], resumed[..format.sample_bytes()]);
    assert_eq!(out[blend..], resumed[blend..]);
}

#[test]
fn only_what_follows_a_hole_is_blended() {
    let mut c =
        UnderrunConcealer::new(UnderrunMode::Repeat, 1, 1000, 8, SampleFormat::S16LE).unwrap();
    let period = [1u8, 0, 2, 0, 3, 0, 4, 0];
    c.scratch_mut().copy_from_slice(&period);
    assert_eq!(c.blend_in(8), 0);
    assert!(c.commit_good_period(8, &[]));
    assert_eq!(c.history, period);
    c.conceal();
    c.scratch_mut().copy_from_slice(&period);
    assert_eq!(c.blend_in(8), 2);
    assert_eq!(underrun::blend_weight(0, 2), (1, 3));
    assert_eq!(underrun::blend_weight(1, 2), (2, 3));
    assert!(c.commit_good_period(8, &[-1, 0x1_0000]));
    assert_eq!(c.history, [0xff, 0xff, 0xff, 0x7f, 3, 0, 4, 0]);
}

#[test]
fn short_period_drops_the_history() {
    let format = SampleFormat::S16LE;
    let mut c = concealer(UnderrunMode::Wsola, format);
    feed(&mut c, &tone(format, 0, 440.0));
    c.scratch_mut()[..4].copy_from_slice(&[1, 2, 3, 4]);
    assert_eq!(c.commit_good_period(4).len(), 4);
    assert!(c.conceal().is_none());
}

#[test]
fn the_signal_is_read_and_written_in_every_format() {
    for (format, top) in [
        (SampleFormat::U8, 0x7f),
        (SampleFormat::S16LE, 0x7fff),
        (SampleFormat::S24LE, 0x7f_ffff),
        (SampleFormat::S32LE, 0x7fff_ffff),
    ] {
        let width = format.sample_bytes();
        let mut pcm = vec![0xeeu8; 3 * width];
        for v in [0i64, 1, -1, top, -top - 1, i64::MAX, i64::MIN] {
            underrun::encode(format, v, &mut pcm, 1);
            let want = v.clamp(-top - 1, top);
            assert_eq!(underrun::decode(format, &pcm, 1) as i64, want);
            assert!(pcm[..width].iter().chain(pcm[2 * width..].iter()).all(|b| *b == 0xee));
        }
    }
    // The byte above a sample of 24 bits does not count.
    assert_eq!(underrun::decode(SampleFormat::S24LE, &[0xff, 0xff, 0xff, 0x55], 0), -1);
}

#[test]
fn the_fade_goes_down_to_nothing() {
    assert_eq!(underrun::fade(3, 100, 0), (300, 300));
    assert_eq!(underrun::fade(3, 100, 99), (201, 300));
    assert_eq!(underrun::fade(2, 100, 0), (200, 300));
    assert_eq!(underrun::fade(1, 100, 99), (1, 300));
}

#[test]
fn a_period_is_repeated_in_phase() {
    let hist: Vec<i32> = (0..10).collect();
    assert_eq!(underrun::fill_repeat(&hist, 2, 5, 2), vec![6, 7, 8, 9, 6, 7, 8, 9, 6, 7]);
    assert_eq!(underrun::fill_repeat(&hist, 2, 5, 0), vec![8, 9, 8, 9, 8, 9, 8, 9, 8, 9]);
}

#[test]
fn searches_fit_their_period() {
    let c = UnderrunConcealer::new(UnderrunMode::Wsola, 2, 48000, 2048, SampleFormat::S16LE).unwrap();
    assert_eq!((c.period_bytes(), c.frames()), (2048, 512));
    assert_eq!(c.pitch_period(), Some((96, 256)));
    assert_eq!(c.wsola_splice(), Some((128, 128)));
    assert_eq!(c.lpc_order(), Some(16));
    assert_eq!(c.lpc_lag(0, 16), 1);
    assert_eq!(c.lpc_lag(511, 16), 496);
    let tiny = UnderrunConcealer::new(UnderrunMode::Lpc, 1, 48000, 6, SampleFormat::S16LE).unwrap();
    assert_eq!(tiny.pitch_period(), None);
    assert_eq!(tiny.wsola_splice(), None);
    assert_eq!(tiny.lpc_order(), None);
}

fn echo() -> PCMDeviceParameters {
    PCMDeviceParameters {
        effects: Some(vec![StreamEffect::EchoCancellation]),
        ..PCMDeviceParameters::default()
    }
}

fn several() -> Parameters {
    Parameters {
        num_output_devices: 3,
        num_input_devices: 2,
        num_output_streams: 3,
        num_input_streams: 2,
        output_device_config: vec![echo()],
        input_device_config: vec![echo()],
        ..Default::default()
    }
}

fn device(params: Parameters) -> VirtioSnd {
    let hosts = HostEndpoints::unknown(&params);
    VirtioSnd::new(123, params, &hosts)
}

#[test]
fn test_virtio_snd_new() {
    let res = device(several());

    assert_eq!(res.snd_data.jack_info.len(), 0);
    assert_eq!(res.acked_features, 0);
    assert!(res.streams_state.is_none());

    assert_eq!(res.avail_features, 123);
    assert_eq!(res.cfg.spec.jacks, 0);
    assert_eq!(res.cfg.spec.streams, 13);
    assert_eq!(res.cfg.spec.chmaps, 3 * 3 + 2 * 1);
    assert_eq!(res.cfg.spec.chmaps as usize, res.snd_data.chmap_info.len());

    assert_eq!(res.snd_data.pcm_info.len(), 13);
    let expected_hda_fn_nid = [0, 0, 0, 1, 1, 1, 2, 2, 2, 0, 0, 1, 1];
    for (i, pcm_info) in res.snd_data.pcm_info.iter().enumerate() {
        assert_eq!(
            pcm_info.hda_fn_nid, expected_hda_fn_nid[i],
            "pcm_info index {} incorrect hda_fn_nid",
            i
        );
    }
    for i in 0..9 {
        assert_eq!(
            res.snd_data.pcm_info[i].direction, VIRTIO_SND_D_OUTPUT,
            "pcm_info index {} incorrect direction",
            i
        );
    }
    for i in 9..13 {
        assert_eq!(
            res.snd_data.pcm_info[i].direction, VIRTIO_SND_D_INPUT,
            "pcm_info index {} incorrect direction",
            i
        );
    }

    assert_eq!(res.snd_data.chmap_info.len(), 11);
    let expected_hda_fn_nid = [0, 1, 2, 0, 1, 0, 1, 2, 0, 1, 2];
    for (i, chmap_info) in res.snd_data.chmap_info.iter().enumerate() {
        assert_eq!(
            chmap_info.hda_fn_nid, expected_hda_fn_nid[i],
            "chmap_info index {} incorrect hda_fn_nid",
            i
        );
    }
}

#[test]
fn test_resize_parameters_pcm_device_config_truncate() {
    let params = Parameters {
        num_output_devices: 1,
        num_input_devices: 1,
        output_device_config: vec![PCMDeviceParameters::default(); 3],
        input_device_config: vec![PCMDeviceParameters::default(); 3],
        ..Parameters::default()
    };
    let params = resize_parameters_pcm_device_config(params);
    assert_eq!(params.output_device_config.len(), 1);
    assert_eq!(params.input_device_config.len(), 1);
}

#[test]
fn test_resize_parameters_pcm_device_config_extend() {
    let params = resize_parameters_pcm_device_config(several());
    assert_eq!(
        params.output_device_config,
        vec![echo(), PCMDeviceParameters::default(), PCMDeviceParameters::default()]
    );
    assert_eq!(params.input_device_config, vec![echo(), PCMDeviceParameters::default()]);
}

fn pcm(hda_fn_nid: u32, direction: u8) -> PcmInfo {
    PcmInfo {
        hda_fn_nid,
        features: 0,
        formats: 0,
        rates: 0,
        direction,
        channels_min: 1,
        channels_max: 6,
    }
}

fn twice_echo() -> PCMDeviceParameters {
    PCMDeviceParameters {
        effects: Some(vec![StreamEffect::EchoCancellation, StreamEffect::EchoCancellation]),
        ..Default::default()
    }
}

#[test]
fn get_device_params_output() {
    let params =
        Parameters { output_device_config: vec![echo(), twice_echo()], ..Default::default() };
    assert_eq!(
        params.get_device_params(&pcm(0, VIRTIO_SND_D_OUTPUT)),
        Ok(params.output_device_config[0].clone())
    );
    assert_eq!(
        params.get_device_params(&pcm(1, VIRTIO_SND_D_OUTPUT)),
        Ok(params.output_device_config[1].clone())
    );
    assert_eq!(
        params.get_device_params(&pcm(2, VIRTIO_SND_D_OUTPUT)),
        Err(Error::InvalidPCMDeviceConfigIndex(2))
    );
}

#[test]
fn get_device_params_input() {
    let params =
        Parameters { input_device_config: vec![twice_echo(), echo()], ..Default::default() };
    assert_eq!(
        params.get_device_params(&pcm(0, VIRTIO_SND_D_INPUT)),
        Ok(params.input_device_config[0].clone())
    );
    assert_eq!(
        params.get_device_params(&pcm(1, VIRTIO_SND_D_INPUT)),
        Ok(params.input_device_config[1].clone())
    );
    assert_eq!(
        params.get_device_params(&pcm(2, VIRTIO_SND_D_INPUT)),
        Err(Error::InvalidPCMDeviceConfigIndex(2))
    );
}

#[test]
fn get_device_params_invalid_direction() {
    let params = Parameters::default();
    assert_eq!(params.get_device_params(&pcm(0, 2)), Err(Error::InvalidPCMInfoDirection(2)));
}

#[test]
fn names_are_read_back() {
    for b in [
        StreamSourceBackend::NULL,
        StreamSourceBackend::FILE,
        StreamSourceBackend::Sys(SysStreamSourceBackend::AAUDIO),
        StreamSourceBackend::Sys(SysStreamSourceBackend::CRAS),
    ] {
        assert_eq!(StreamSourceBackend::try_from(&b.into_string()), Ok(b));
    }
    assert_eq!(StreamSourceBackend::NULL.into_string(), "null");
    assert_eq!(SysStreamSourceBackend::AAUDIO.into_string(), "aaudio");
    assert_eq!(StreamSourceBackend::try_from("pulse"), Err(Error::InvalidBackend));
    for m in [UnderrunMode::Silence, UnderrunMode::Repeat, UnderrunMode::Wsola, UnderrunMode::Lpc] {
        assert_eq!(UnderrunMode::try_from(&m.into_string()), Ok(m));
    }
    assert!(matches!(
        UnderrunMode::try_from("loud"),
        Err(Error::InvalidParameterValue(v, _)) if v == "loud"
    ));
    assert_eq!(Parameters::default().underrun, UnderrunMode::default());
}

#[test]
fn streams_are_counted() {
    let p = several();
    assert_eq!(p.get_total_output_streams(), 9);
    assert_eq!(p.get_total_input_streams(), 4);
    assert_eq!(p.get_total_streams(), 13);
}

#[test]
fn endpoints_limit_what_is_offered() {
    assert_eq!(data::rates_up_to(48000), 0xfe);
    assert_eq!(data::rates_up_to(44100), 0x7e);
    assert_eq!(data::rates_up_to(16000), 0x0e);
    assert_eq!(data::rates_up_to(4000), 0xfe);
    assert_eq!(
        data::device_caps(Some(NativeConfig { frame_rate: 16000, num_channels: 0 }), 6),
        DeviceCaps { formats: 0xa_0020, rates: 0x0e, channels_max: 1 }
    );
    assert_eq!(data::device_caps(None, 6).channels_max, 6);

    let params = Parameters { num_output_streams: 2, ..Default::default() };
    let out = [Some(NativeConfig { frame_rate: 44100, num_channels: 4 })];
    let d = data::hardcoded_snd_data(&params, &out, &[None]);
    assert_eq!(d.pcm_info_len(), 3);
    assert_eq!(d.pcm_info_iter()[1].channels_max, 4);
    assert_eq!(d.pcm_info_iter()[1].rates, 0x7e);
    assert_eq!(d.pcm_info_iter()[2].direction, VIRTIO_SND_D_INPUT);
    // Stereo for both, and four channels for the output.
    let maps: Vec<(u8, u8)> = d.chmap_info.iter().map(|m| (m.direction, m.channels)).collect();
    assert_eq!(maps, vec![(0, 2), (1, 2), (0, 4)]);
    assert_eq!(&d.chmap_info[2].positions[..5], &[3, 4, 5, 6, 0]);
    assert!(d.equals(&d.clone()));
    assert!(!d.equals(&data::hardcoded_snd_data(&params, &[None], &[None])));
}

#[test]
fn an_endpoint_is_found_by_its_name() {
    let named = PCMDeviceParameters {
        host_device: Some(String::from("speaker")),
        ..Default::default()
    };
    assert_eq!(
        data::endpoint_native("/table", Some(&named)).map(|s| s.as_str()),
        Some("speaker")
    );
    assert_eq!(data::endpoint_native("", Some(&named)), None);
    assert_eq!(data::endpoint_native("/table", None), None);
    assert!(config::needs_lookup(&named));
    assert!(!config::needs_lookup(&PCMDeviceParameters::default()));

    let mut cache = ProbeCache::new();
    assert!(cache.probe_once("speaker", false).is_none());
    cache.learn("speaker", false, Some(NativeConfig { frame_rate: 48000, num_channels: 2 }));
    cache.learn("mic", true, None);
    assert_eq!(
        cache.probe_once("speaker", false),
        Some(Some(NativeConfig { frame_rate: 48000, num_channels: 2 }))
    );
    assert_eq!(cache.probe_once("mic", true), Some(None));
    assert!(cache.probe_once("speaker", true).is_none());
}

#[test]
fn the_table_says_what_kind_an_endpoint_is() {
    let unknown = Endpoint { rate: 0, channels: 0, kind: 0 };
    let stated = Endpoint { rate: 44100, channels: 1, kind: 3 };
    let native = NativeConfig { frame_rate: 48000, num_channels: 2 };
    let properties = config::endpoint_properties;
    assert_eq!(properties("", Some(stated), Some(native)), unknown);
    assert_eq!(properties("/table", None, None), unknown);
    assert_eq!(properties("/table", Some(stated), None), stated);
    assert_eq!(
        properties("/table", Some(stated), Some(native)),
        Endpoint { rate: 48000, channels: 2, kind: 3 }
    );
    assert_eq!(
        properties("/table", None, Some(native)),
        Endpoint { rate: 48000, channels: 2, kind: 0 }
    );
}

#[test]
fn the_guest_is_told_how_much_there_is_to_ask_for() {
    let params = resize_parameters_pcm_device_config(several());
    let d = data::hardcoded_snd_data(&params, &[None; 3], &[None; 2]);
    let c = config::hardcoded_virtio_snd_config(&params, &d);
    assert_eq!((c.jacks, c.streams, c.chmaps), (0, 13, 11));
}

#[test]
fn hints_go_behind_the_standard_configuration() {
    assert_eq!(DroidVmSndEndpointKind::Unknown.code(), 0);
    let named = PCMDeviceParameters {
        host_device: Some(String::from("speaker")),
        preferred_rate: Some(44100),
        ..Default::default()
    };
    let found = Endpoint { rate: 48000, channels: 2, kind: 3 };
    let (hints, n) = config::collect_preferred(&[named, echo()], &[found, found]);
    assert_eq!(n, 2);
    assert_eq!((hints[0].rate, hints[0].channels, hints[0].kind), (44100, 2, 3));
    assert_eq!(hints[1], DroidVmSndPreferred::default());
    let (_, n) = config::collect_preferred(
        &vec![PCMDeviceParameters::default(); 11],
        &[found; 11],
    );
    assert_eq!(n, 8);

    let params = resize_parameters_pcm_device_config(several());
    let d = data::hardcoded_snd_data(&params, &[None; 3], &[None; 2]);
    let lookups = Lookups { outputs: vec![found; 3], inputs: vec![found; 2] };
    let c = config::droidvm_snd_config(&params, &d, &lookups);
    let bytes = c.as_bytes();
    assert_eq!(bytes.len(), 280);
    assert_eq!(&bytes[..12], &[0, 0, 0, 0, 13, 0, 0, 0, 11, 0, 0, 0]);
    assert_eq!(&bytes[64..68], &0x534d_5644u32.to_le_bytes());
    assert_eq!(&bytes[68..72], &2u32.to_le_bytes());
    let mut part = [9u8; 4];
    c.read_config(64, &mut part);
    assert_eq!(part, 0x534d_5644u32.to_le_bytes());
    let mut past = [9u8; 4];
    c.read_config(278, &mut past);
    assert_eq!(past[2..], [9, 9]);
    c.read_config(u64::MAX, &mut past);
    let fresh = DroidVmSndConfig::default();
    assert_eq!(fresh.preferred_output_count, 0);
}

#[test]
fn a_saved_device_is_restored_to_its_like_only() {
    let mut d = device(several());
    d.ack_features(0xff);
    assert_eq!(d.acked_features, 123);
    assert!(d.activate(4));
    assert!(!d.activate(3));
    let saved = d.virtio_snapshot();
    let mut again = device(several());
    assert_eq!(again.virtio_restore(saved), Ok(()));
    assert_eq!(again.acked_features, 123);

    let mut other = device(Parameters::default());
    assert_eq!(other.virtio_restore(d.virtio_snapshot()), Err(RestoreError::SndData));
    let mut saved = d.virtio_snapshot();
    saved.avail_features = 1;
    assert_eq!(again.virtio_restore(saved), Err(RestoreError::AvailFeatures));
    let mut saved = d.virtio_snapshot();
    saved.queue_sizes = vec![1];
    assert_eq!(again.virtio_restore(saved), Err(RestoreError::QueueSizes));
}

#[test]
fn the_worker_resets_and_goes_on() {
    assert_eq!(run_worker_once(Ended::Task, true), LoopState::Continue);
    assert_eq!(run_worker_once(Ended::Kill, true), LoopState::Break);
    assert_eq!(run_worker_once(Ended::Task, false), LoopState::Break);
    let mut step = WorkerStep::Run;
    for (result, next) in [
        (StepResult::Ran(Ended::Task), WorkerStep::ShutDown),
        (StepResult::Executed(true), WorkerStep::Reset),
        (StepResult::Executed(true), WorkerStep::Run),
        (StepResult::Ran(Ended::Executor), WorkerStep::ShutDown),
        (StepResult::Executed(false), WorkerStep::Save),
        (StepResult::Executed(true), WorkerStep::Save),
    ] {
        step = run_worker(step, result);
        assert_eq!(step, next);
    }
    assert_eq!(run_worker(WorkerStep::Run, StepResult::Ran(Ended::Kill)), WorkerStep::Save);
}

#[test]
fn streams_are_restored_and_reset() {
    assert_eq!(
        restore_actions(VIRTIO_SND_R_PCM_START),
        vec![StreamAction::Prepare, StreamAction::Start]
    );
    assert_eq!(restore_actions(VIRTIO_SND_R_PCM_PREPARE), vec![StreamAction::Prepare]);
    assert!(restore_actions(VIRTIO_SND_R_PCM_STOP).is_empty());
    let mut reset = StreamReset::new();
    assert_eq!(reset.reset_stream(VIRTIO_SND_R_PCM_START), Some(StreamAction::Stop));
    assert_eq!(reset.reset_stream(VIRTIO_SND_R_PCM_STOP), Some(StreamAction::Release));
    assert_eq!(reset.reset_stream(VIRTIO_SND_R_PCM_STOP), None);
    let mut stuck = StreamReset::new();
    stuck.reset_stream(VIRTIO_SND_R_PCM_START);
    assert_eq!(stuck.reset_stream(VIRTIO_SND_R_PCM_START), None);
}

#[test]
fn streams_are_opened_by_their_configuration() {
    let mut params = several();
    params.device_table = String::from("/table");
    params.output_device_config[0].host_device = Some(String::from("speaker"));
    params.output_device_config[0].client_type = Some(CrasClientType::Arcvm);
    params.input_device_config[0].device_id = Some(17);
    params.input_device_config[0].stream_type = Some(CrasStreamType::ProAudio);
    params.underrun = UnderrunMode::Lpc;
    let d = data::hardcoded_snd_data(&params, &[None; 3], &[None; 2]);
    let endpoints = sys::create_aaudio_stream_source_generators(&params, &d);
    assert_eq!(endpoints.len(), 13);
    assert!(matches!(
        &endpoints[0],
        AaudioEndpoint::HostKey { key, table } if key == "speaker" && table == "/table"
    ));
    assert!(matches!(&endpoints[3], AaudioEndpoint::DeviceId(0)));
    assert!(matches!(&endpoints[9], AaudioEndpoint::DeviceId(17)));
    let cras = sys::create_cras_stream_source_generators(&params, &d);
    assert_eq!(cras[0].client_type, CrasClientType::Arcvm);
    assert_eq!(cras[3].client_type, CrasClientType::Crosvm);
    assert_eq!(cras[0].socket_type, CrasSocketType::Unified);
    assert_eq!(cras[9].stream_type, CrasStreamType::ProAudio);
    assert_eq!(cras[0].stream_type, CrasStreamType::Ordinary);
    let settings = sys::create_stream_info_builders(&params, &d);
    assert_eq!(settings[0].effects, vec![StreamEffect::EchoCancellation]);
    assert!(settings[3].effects.is_empty());
    assert_eq!(settings[12].underrun, UnderrunMode::Lpc);
    assert_eq!(sys::period_frames(4096, 4), 1024);
}
