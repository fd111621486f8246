//! What a sound device tells the guest of its streams and channel maps.

use crate::snd::parameters::{PCMDeviceParameters, Parameters};
use crate::snd::{PcmInfo, VIRTIO_SND_D_INPUT, VIRTIO_SND_D_OUTPUT};
use vstd::arithmetic::div_mod::*;
use vstd::prelude::*;

verus! {

/// The formats that are offered: 16-bit and 32-bit integers, and floating point.
pub const SUPPORTED_FORMATS: u64 = 0xa_0020;

/// The rates that are offered: 8000, 11025, 16000, 22050, 32000, 44100 and 48000 Hz.
pub const SUPPORTED_FRAME_RATES: u64 = 0xfe;

/// The channels of an output whose endpoint is not known.
pub const FALLBACK_OUTPUT_CHANNELS: u8 = 6;

/// The channels of an input whose endpoint is not known.
pub const FALLBACK_INPUT_CHANNELS: u8 = 2;

pub const VIRTIO_SND_CHMAP_NONE: u8 = 0;

pub const VIRTIO_SND_CHMAP_FL: u8 = 3;

pub const VIRTIO_SND_CHMAP_FR: u8 = 4;

pub const VIRTIO_SND_CHMAP_RL: u8 = 5;

pub const VIRTIO_SND_CHMAP_RR: u8 = 6;

pub const VIRTIO_SND_CHMAP_FC: u8 = 7;

pub const VIRTIO_SND_CHMAP_LFE: u8 = 8;

/// What a host endpoint runs at.
#[derive(Clone, Copy, Debug, PartialEq, Eq, Structural)]
pub struct NativeConfig {
    pub frame_rate: u32,
    pub num_channels: u8,
}

/// A jack of the device. There are none.
#[derive(Clone, Copy, Debug, PartialEq, Eq, Structural)]
pub struct JackInfo {
    pub hda_fn_nid: u32,
}

/// How many channels a device can have, and where each of them is.
#[derive(Clone, Copy, Debug, PartialEq, Eq)]
pub struct ChmapInfo {
    pub hda_fn_nid: u32,
    pub direction: u8,
    pub channels: u8,
    pub positions: [u8; 18],
}

/// What a channel map says.
#[verifier::ext_equal]
pub struct ChmapView {
    pub hda_fn_nid: u32,
    pub direction: u8,
    pub channels: u8,
    pub positions: Seq<u8>,
}

impl View for ChmapInfo {
    type V = ChmapView;

    open spec fn view(&self) -> ChmapView {
        ChmapView {
            hda_fn_nid: self.hda_fn_nid,
            direction: self.direction,
            channels: self.channels,
            positions: self.positions@,
        }
    }
}

/// The descriptions that the guest asks for.
#[derive(Debug, PartialEq, Eq)]
pub struct SndData {
    pub jack_info: Vec<JackInfo>,
    pub pcm_info: Vec<PcmInfo>,
    pub chmap_info: Vec<ChmapInfo>,
}

/// What a host endpoint accepts.
#[derive(Clone, Copy, Debug, PartialEq, Eq, Structural)]
pub struct DeviceCaps {
    pub formats: u64,
    pub rates: u64,
    pub channels_max: u8,
}

/// What a rate adds to the mask, if it is not above the ceiling.
pub open spec fn rate_part(rate: int, hz: u32, part: int) -> int {
    if rate <= hz {
        part
    } else {
        0
    }
}

/// Every rate that is offered, up to and with a ceiling; all of them, where the ceiling is below
/// the lowest.
pub open spec fn rates_below(hz: u32) -> int {
    let mask = rate_part(8000, hz, 0x02) + rate_part(11025, hz, 0x04) + rate_part(16000, hz, 0x08)
        + rate_part(22050, hz, 0x10) + rate_part(32000, hz, 0x20) + rate_part(44100, hz, 0x40)
        + rate_part(48000, hz, 0x80);
    if mask == 0 {
        SUPPORTED_FRAME_RATES as int
    } else {
        mask
    }
}

/// The rates that are offered to reach an endpoint that runs at `hz`.
pub fn rates_up_to(hz: u32) -> (r: u64)
    ensures
        r == rates_below(hz),
{
    let mut mask: u64 = 0;
    if 8000 <= hz {
        mask = mask + 0x02;
    }
    if 11025 <= hz {
        mask = mask + 0x04;
    }
    if 16000 <= hz {
        mask = mask + 0x08;
    }
    if 22050 <= hz {
        mask = mask + 0x10;
    }
    if 32000 <= hz {
        mask = mask + 0x20;
    }
    if 44100 <= hz {
        mask = mask + 0x40;
    }
    if 48000 <= hz {
        mask = mask + 0x80;
    }
    if mask == 0 {
        SUPPORTED_FRAME_RATES
    } else {
        mask
    }
}

/// The guest always has a rate to choose, and never one that is not supported.
pub proof fn some_rate_is_offered(hz: u32)
    ensures
        0 < rates_below(hz) <= SUPPORTED_FRAME_RATES,
        rates_below(hz) % 2 == 0,
        hz >= 48000 ==> rates_below(hz) == SUPPORTED_FRAME_RATES,
{
}

/// A rate is offered exactly where it is not above what the endpoint runs at; where the endpoint runs
/// below the lowest of them, all are. The bits are those of 8000, 11025, 16000, 22050, 32000, 44100
/// and 48000 Hz, from the second on.
pub proof fn rates_are_offered_up_to_the_ceiling(hz: u32)
    ensures
        hz < 8000 ==> rates_below(hz) == 0xfe,
        rates_below(hz) / 2 % 2 == 1,
        hz >= 8000 ==> {
            let mask = rates_below(hz);
            &&& mask % 2 == 0 && mask < 256
            &&& mask / 4 % 2 == 1 <==> hz >= 11025
            &&& mask / 8 % 2 == 1 <==> hz >= 16000
            &&& mask / 16 % 2 == 1 <==> hz >= 22050
            &&& mask / 32 % 2 == 1 <==> hz >= 32000
            &&& mask / 64 % 2 == 1 <==> hz >= 44100
            &&& mask / 128 % 2 == 1 <==> hz >= 48000
        },
{
    let mask = rates_below(hz);
    assert(mask == 0x02 || mask == 0x06 || mask == 0x0e || mask == 0x1e || mask == 0x3e || mask
        == 0x7e || mask == 0xfe);
}

/// A higher ceiling offers no fewer rates, as long as the lower one offers any of its own.
pub proof fn a_higher_ceiling_offers_more(low: u32, high: u32)
    requires
        8000 <= low <= high,
    ensures
        rates_below(low) <= rates_below(high),
{
}

/// What a device offers, by what its endpoint runs at.
pub open spec fn caps_of(native: Option<NativeConfig>, fallback_channels: u8) -> DeviceCaps {
    match native {
        Some(n) => DeviceCaps {
            formats: SUPPORTED_FORMATS,
            rates: rates_below(n.frame_rate) as u64,
            channels_max: if n.num_channels == 0 {
                1
            } else {
                n.num_channels
            },
        },
        None => DeviceCaps {
            formats: SUPPORTED_FORMATS,
            rates: SUPPORTED_FRAME_RATES,
            channels_max: fallback_channels,
        },
    }
}

/// What a device offers, by what its endpoint runs at; everything, where that is not known.
pub fn device_caps(native: Option<NativeConfig>, fallback_channels: u8) -> (r: DeviceCaps)
    ensures
        r == caps_of(native, fallback_channels),
{
    match native {
        Some(n) => DeviceCaps {
            formats: SUPPORTED_FORMATS,
            rates: rates_up_to(n.frame_rate),
            channels_max: if n.num_channels == 0 {
                1
            } else {
                n.num_channels
            },
        },
        None => DeviceCaps {
            formats: SUPPORTED_FORMATS,
            rates: SUPPORTED_FRAME_RATES,
            channels_max: fallback_channels,
        },
    }
}

/// The name of the endpoint that is asked what it runs at. Without a table of endpoints, or for a
/// device that names none, there is nothing to ask.
pub fn endpoint_native<'a>(
    device_table: &str,
    device: Option<&'a PCMDeviceParameters>,
) -> (r: Option<&'a String>)
    ensures
        r == (if device_table@.len() == 0 {
            None
        } else {
            match device {
                Some(d) => match d.host_device {
                    Some(h) => Some(&h),
                    None => None,
                },
                None => None,
            }
        }),
{
    if is_empty(device_table) {
        return None;
    }
    match device {
        Some(d) => match &d.host_device {
            Some(h) => Some(h),
            None => None,
        },
        None => None,
    }
}

/// Whether a text is empty.
pub(crate) fn is_empty(s: &str) -> (r: bool)
    ensures
        r == (s@.len() == 0),
{
    let r = crate::bytes::text_equal(s, "");
    proof {
        reveal_strlit("");
        if s@.len() == 0 {
            assert(s@ =~= ""@);
        }
    }
    r
}

/// Where the channels of a layout are.
pub open spec fn layout(channels: u8) -> Seq<u8> {
    if channels == 2 {
        seq![VIRTIO_SND_CHMAP_FL, VIRTIO_SND_CHMAP_FR]
    } else if channels == 4 {
        seq![VIRTIO_SND_CHMAP_FL, VIRTIO_SND_CHMAP_FR, VIRTIO_SND_CHMAP_RL, VIRTIO_SND_CHMAP_RR]
    } else {
        seq![
            VIRTIO_SND_CHMAP_FL,
            VIRTIO_SND_CHMAP_FR,
            VIRTIO_SND_CHMAP_FC,
            VIRTIO_SND_CHMAP_LFE,
            VIRTIO_SND_CHMAP_RL,
            VIRTIO_SND_CHMAP_RR,
        ]
    }
}

/// A channel map: the positions of the layout, and none behind them.
pub open spec fn chmap(device: u32, direction: u8, channels: u8) -> ChmapView {
    ChmapView {
        hda_fn_nid: device,
        direction,
        channels,
        positions: Seq::new(
            18,
            |i: int|
                if i < layout(channels).len() {
                    layout(channels)[i]
                } else {
                    VIRTIO_SND_CHMAP_NONE
                },
        ),
    }
}

/// The most channels of a device; never none.
pub open spec fn widest(native: Option<NativeConfig>, fallback_channels: u8) -> u8 {
    let c = caps_of(native, fallback_channels).channels_max;
    if c == 0 {
        1
    } else {
        c
    }
}

/// The maps of one layout for the first `n` devices: only those that have so many channels have
/// one.
pub open spec fn maps_of(
    natives: Seq<Option<NativeConfig>>,
    fallback_channels: u8,
    n: nat,
    direction: u8,
    channels: u8,
) -> Seq<ChmapView>
    decreases n,
{
    if n == 0 {
        Seq::empty()
    } else {
        let before = maps_of(natives, fallback_channels, (n - 1) as nat, direction, channels);
        if channels <= widest(natives[n - 1], fallback_channels) {
            before.push(chmap((n - 1) as u32, direction, channels))
        } else {
            before
        }
    }
}

/// The maps of one layout: those of the outputs, and those of the inputs behind them.
pub open spec fn maps_of_layout(
    outputs: Seq<Option<NativeConfig>>,
    inputs: Seq<Option<NativeConfig>>,
    channels: u8,
) -> Seq<ChmapView> {
    maps_of(outputs, FALLBACK_OUTPUT_CHANNELS, outputs.len(), VIRTIO_SND_D_OUTPUT, channels)
        + maps_of(inputs, FALLBACK_INPUT_CHANNELS, inputs.len(), VIRTIO_SND_D_INPUT, channels)
}

/// All maps, the narrower layouts first.
pub open spec fn all_maps(
    outputs: Seq<Option<NativeConfig>>,
    inputs: Seq<Option<NativeConfig>>,
) -> Seq<ChmapView> {
    maps_of_layout(outputs, inputs, 2) + maps_of_layout(outputs, inputs, 4) + maps_of_layout(
        outputs,
        inputs,
        6,
    )
}

/// A stream of a device.
pub open spec fn stream_of(
    native: Option<NativeConfig>,
    fallback_channels: u8,
    device: u32,
    direction: u8,
) -> PcmInfo {
    let caps = caps_of(native, fallback_channels);
    PcmInfo {
        hda_fn_nid: device,
        features: 0,
        formats: caps.formats,
        rates: caps.rates,
        direction,
        channels_min: 1,
        channels_max: widest(native, fallback_channels),
    }
}

/// The streams of the devices of a direction: as many of each, one device after the other.
pub open spec fn streams_of(
    natives: Seq<Option<NativeConfig>>,
    fallback_channels: u8,
    streams: u32,
    direction: u8,
) -> Seq<PcmInfo> {
    Seq::new(
        natives.len() * streams as nat,
        |i: int|
            {
                let device = i / streams as int;
                stream_of(natives[device], fallback_channels, device as u32, direction)
            },
    )
}

impl SndData {
    pub fn pcm_info_len(&self) -> (r: usize)
        ensures
            r == self.pcm_info@.len(),
    {
        self.pcm_info.len()
    }

    /// The descriptions of the streams, in order.
    pub fn pcm_info_iter(&self) -> (r: &[PcmInfo])
        ensures
            r@ == self.pcm_info@,
    {
        self.pcm_info.as_slice()
    }

    /// The two say the same.
    pub open spec fn says_the_same(&self, other: &Self) -> bool {
        &&& self.jack_info@ == other.jack_info@
        &&& self.pcm_info@ == other.pcm_info@
        &&& self.chmaps() == other.chmaps()
    }

    /// Whether the two say the same.
    pub fn equals(&self, other: &Self) -> (r: bool)
        ensures
            r == self.says_the_same(other),
    {
        if self.jack_info.len() != other.jack_info.len() || self.pcm_info.len()
            != other.pcm_info.len() || self.chmap_info.len() != other.chmap_info.len() {
            return false;
        }
        let mut i: usize = 0;
        while i < self.jack_info.len()
            invariant
                i <= self.jack_info@.len() == other.jack_info@.len(),
                forall|k: int| 0 <= k < i ==> self.jack_info@[k] == other.jack_info@[k],
            decreases self.jack_info.len() - i,
        {
            if self.jack_info[i] != other.jack_info[i] {
                return false;
            }
            i = i + 1;
        }
        let mut j: usize = 0;
        while j < self.pcm_info.len()
            invariant
                j <= self.pcm_info@.len() == other.pcm_info@.len(),
                forall|k: int| 0 <= k < j ==> self.pcm_info@[k] == other.pcm_info@[k],
            decreases self.pcm_info.len() - j,
        {
            if self.pcm_info[j] != other.pcm_info[j] {
                return false;
            }
            j = j + 1;
        }
        let mut m: usize = 0;
        while m < self.chmap_info.len()
            invariant
                m <= self.chmap_info@.len() == other.chmap_info@.len(),
                forall|k: int| 0 <= k < m ==> self.chmap_info@[k]@ == other.chmap_info@[k]@,
            decreases self.chmap_info.len() - m,
        {
            let a = &self.chmap_info[m];
            let b = &other.chmap_info[m];
            if a.hda_fn_nid != b.hda_fn_nid || a.direction != b.direction || a.channels
                != b.channels || !crate::bytes::bytes_equal(&a.positions, &b.positions) {
                assert(self.chmaps()[m as int] == a@ && other.chmaps()[m as int] == b@);
                return false;
            }
            m = m + 1;
        }
        assert(self.jack_info@ =~= other.jack_info@);
        assert(self.pcm_info@ =~= other.pcm_info@);
        assert(self.chmaps() =~= other.chmaps());
        true
    }

    /// The channel maps, by what they say.
    pub open spec fn chmaps(&self) -> Seq<ChmapView> {
        self.chmap_info@.map_values(|c: ChmapInfo| c@)
    }
}

impl Clone for SndData {
    fn clone(&self) -> (r: Self)
        ensures
            r.says_the_same(self),
    {
        let r = SndData {
            jack_info: self.jack_info.clone(),
            pcm_info: self.pcm_info.clone(),
            chmap_info: self.chmap_info.clone(),
        };
        assert(r.jack_info@ =~= self.jack_info@);
        assert(r.pcm_info@ =~= self.pcm_info@);
        assert(r.chmap_info@ =~= self.chmap_info@);
        r
    }
}

/// Adds the streams of the devices of a direction.
fn push_streams(
    out: &mut Vec<PcmInfo>,
    natives: &[Option<NativeConfig>],
    fallback_channels: u8,
    streams: u32,
    direction: u8,
)
    requires
        natives.len() <= u32::MAX,
    ensures
        final(out)@ == old(out)@ + streams_of(natives@, fallback_channels, streams, direction),
{
    let ghost want = streams_of(natives@, fallback_channels, streams, direction);
    let ghost per = streams as int;
    let mut device: usize = 0;
    while device < natives.len()
        invariant
            device <= natives@.len() <= u32::MAX,
            natives.len() == natives@.len(),
            per == streams,
            want == streams_of(natives@, fallback_channels, streams, direction),
            out@.len() == old(out)@.len() + device * per,
            forall|i: int| 0 <= i < old(out)@.len() ==> out@[i] == old(out)@[i],
            forall|i: int|
                0 <= i < device * per ==> #[trigger] want[i] == out@[old(out)@.len() + i],
        decreases natives.len() - device,
    {
        let caps = device_caps(natives[device], fallback_channels);
        let info = PcmInfo {
            hda_fn_nid: device as u32,
            features: 0,
            formats: caps.formats,
            rates: caps.rates,
            direction,
            channels_min: 1,
            channels_max: if caps.channels_max == 0 {
                1
            } else {
                caps.channels_max
            },
        };
        proof {
            assert((device + 1) * per == device * per + per) by (nonlinear_arith);
            assert((device + 1) * per <= natives@.len() * per) by (nonlinear_arith)
                requires
                    device + 1 <= natives@.len(),
                    0 <= per,
            ;
            assert(0 <= device * per) by (nonlinear_arith)
                requires
                    0 <= device,
                    0 <= per,
            ;
        }
        let mut k: u32 = 0;
        while k < streams
            invariant
                k <= streams,
                device < natives@.len() <= u32::MAX,
                per == streams,
                0 <= device * per,
                device * per + per <= natives@.len() * per,
                want == streams_of(natives@, fallback_channels, streams, direction),
                info == stream_of(
                    natives@[device as int],
                    fallback_channels,
                    device as u32,
                    direction,
                ),
                out@.len() == old(out)@.len() + device * per + k,
                forall|i: int| 0 <= i < old(out)@.len() ==> out@[i] == old(out)@[i],
                forall|i: int|
                    0 <= i < device * per + k ==> #[trigger] want[i] == out@[old(out)@.len() + i],
            decreases streams - k,
        {
            out.push(info);
            proof {
                let i = device * per + k;
                assert(device * per == per * device) by (nonlinear_arith);
                lemma_fundamental_div_mod_converse(i, per, device as int, k as int);
                assert(want[i] == info);
            }
            k = k + 1;
        }
        device = device + 1;
    }
    proof {
        assert(natives@.len() * streams as nat == natives@.len() * per) by (nonlinear_arith)
            requires
                per == streams,
        ;
        assert(out@ =~= old(out)@ + want) by {
            assert forall|i: int| old(out)@.len() <= i < out@.len() implies out@[i] == (old(out)@
                + want)[i] by {
                assert(want[i - old(out)@.len()] == out@[old(out)@.len() + (i - old(
                    out,
                )@.len())]);
            }
        }
    }
}

/// The positions of a layout.
fn positions(channels: u8) -> (r: [u8; 18])
    ensures
        r@ == chmap(0, 0, channels).positions,
{
    let mut r: [u8; 18] = [VIRTIO_SND_CHMAP_NONE;18];
    r[0] = VIRTIO_SND_CHMAP_FL;
    r[1] = VIRTIO_SND_CHMAP_FR;
    if channels == 2 {
    } else if channels == 4 {
        r[2] = VIRTIO_SND_CHMAP_RL;
        r[3] = VIRTIO_SND_CHMAP_RR;
    } else {
        r[2] = VIRTIO_SND_CHMAP_FC;
        r[3] = VIRTIO_SND_CHMAP_LFE;
        r[4] = VIRTIO_SND_CHMAP_RL;
        r[5] = VIRTIO_SND_CHMAP_RR;
    }
    assert(r@ =~= chmap(0, 0, channels).positions);
    r
}

/// Adds the maps of one layout for the devices of a direction.
fn push_chmaps(
    out: &mut Vec<ChmapInfo>,
    natives: &[Option<NativeConfig>],
    fallback_channels: u8,
    direction: u8,
    channels: u8,
)
    requires
        natives.len() <= u32::MAX,
    ensures
        final(out)@.map_values(|c: ChmapInfo| c@) == old(out)@.map_values(|c: ChmapInfo| c@)
            + maps_of(natives@, fallback_channels, natives@.len(), direction, channels),
{
    let ghost view = |c: ChmapInfo| c@;
    let ghost before = out@.map_values(view);
    assert(before + Seq::<ChmapView>::empty() =~= before);
    let mut device: usize = 0;
    while device < natives.len()
        invariant
            device <= natives@.len() <= u32::MAX,
            natives.len() == natives@.len(),
            view == (|c: ChmapInfo| c@),
            out@.map_values(view) == before + maps_of(
                natives@,
                fallback_channels,
                device as nat,
                direction,
                channels,
            ),
        decreases natives.len() - device,
    {
        let caps = device_caps(natives[device], fallback_channels);
        let max_channels: u8 = if caps.channels_max == 0 {
            1
        } else {
            caps.channels_max
        };
        let ghost prev = out@;
        let ghost done = maps_of(natives@, fallback_channels, device as nat, direction, channels);
        if channels <= max_channels {
            let map = ChmapInfo {
                hda_fn_nid: device as u32,
                direction,
                channels,
                positions: positions(channels),
            };
            out.push(map);
            proof {
                assert(map@ =~= chmap(device as u32, direction, channels));
                assert(out@.map_values(view) =~= prev.map_values(view).push(map@));
                assert((before + done).push(map@) =~= before + done.push(map@));
            }
        }
        device = device + 1;
    }
}

/// What the guest is told of the streams and channel maps of a device, given what its endpoints run
/// at.
pub fn hardcoded_snd_data(
    params: &Parameters,
    outputs: &[Option<NativeConfig>],
    inputs: &[Option<NativeConfig>],
) -> (r: SndData)
    requires
        outputs.len() == params.num_output_devices,
        inputs.len() == params.num_input_devices,
    ensures
        r.jack_info@ == Seq::<JackInfo>::empty(),
        r.pcm_info@ == streams_of(
            outputs@,
            FALLBACK_OUTPUT_CHANNELS,
            params.num_output_streams,
            VIRTIO_SND_D_OUTPUT,
        ) + streams_of(
            inputs@,
            FALLBACK_INPUT_CHANNELS,
            params.num_input_streams,
            VIRTIO_SND_D_INPUT,
        ),
        r.chmaps() == all_maps(outputs@, inputs@),
        forall|k: int|
            0 <= k < r.chmap_info@.len() ==> names_its_channels(#[trigger] r.chmap_info@[k]@),
{
    let mut pcm_info: Vec<PcmInfo> = Vec::new();
    push_streams(
        &mut pcm_info,
        outputs,
        FALLBACK_OUTPUT_CHANNELS,
        params.num_output_streams,
        VIRTIO_SND_D_OUTPUT,
    );
    push_streams(
        &mut pcm_info,
        inputs,
        FALLBACK_INPUT_CHANNELS,
        params.num_input_streams,
        VIRTIO_SND_D_INPUT,
    );
    let mut chmap_info: Vec<ChmapInfo> = Vec::new();
    push_chmaps(&mut chmap_info, outputs, FALLBACK_OUTPUT_CHANNELS, VIRTIO_SND_D_OUTPUT, 2);
    push_chmaps(&mut chmap_info, inputs, FALLBACK_INPUT_CHANNELS, VIRTIO_SND_D_INPUT, 2);
    push_chmaps(&mut chmap_info, outputs, FALLBACK_OUTPUT_CHANNELS, VIRTIO_SND_D_OUTPUT, 4);
    push_chmaps(&mut chmap_info, inputs, FALLBACK_INPUT_CHANNELS, VIRTIO_SND_D_INPUT, 4);
    push_chmaps(&mut chmap_info, outputs, FALLBACK_OUTPUT_CHANNELS, VIRTIO_SND_D_OUTPUT, 6);
    push_chmaps(&mut chmap_info, inputs, FALLBACK_INPUT_CHANNELS, VIRTIO_SND_D_INPUT, 6);
    let r = SndData { jack_info: Vec::new(), pcm_info, chmap_info };
    proof {
        assert(r.pcm_info@ =~= streams_of(
            outputs@,
            FALLBACK_OUTPUT_CHANNELS,
            params.num_output_streams,
            VIRTIO_SND_D_OUTPUT,
        ) + streams_of(
            inputs@,
            FALLBACK_INPUT_CHANNELS,
            params.num_input_streams,
            VIRTIO_SND_D_INPUT,
        ));
        assert(r.chmaps() =~= all_maps(outputs@, inputs@));
        assert forall|k: int| 0 <= k < r.chmap_info@.len() implies names_its_channels(
            #[trigger] r.chmap_info@[k]@,
        ) by {
            assert(r.chmaps()[k] == r.chmap_info@[k]@);
            channels_are_named_in_order(outputs@, inputs@, k);
        }
    }
    r
}

/// A map has two, four or six channels, and says where each of them is: the front left and the front
/// right first; of six, the middle and the low frequencies behind them; and the rear left and the
/// rear right last. Nothing is said of channels that it does not have.
pub open spec fn names_its_channels(m: ChmapView) -> bool {
    let p = m.positions;
    &&& p.len() == 18
    &&& m.channels == 2 || m.channels == 4 || m.channels == 6
    &&& p[0] == 3 && p[1] == 4
    &&& m.channels == 4 ==> p[2] == 5 && p[3] == 6
    &&& m.channels == 6 ==> p[2] == 7 && p[3] == 8 && p[4] == 5 && p[5] == 6
    &&& forall|i: int| m.channels <= i < 18 ==> #[trigger] p[i] == 0
}

/// The maps of one layout name their channels.
proof fn maps_name_their_channels(
    natives: Seq<Option<NativeConfig>>,
    fallback: u8,
    n: nat,
    direction: u8,
    channels: u8,
    i: int,
)
    requires
        channels == 2 || channels == 4 || channels == 6,
        0 <= i < maps_of(natives, fallback, n, direction, channels).len(),
    ensures
        names_its_channels(maps_of(natives, fallback, n, direction, channels)[i]),
    decreases n,
{
    let before = maps_of(natives, fallback, (n - 1) as nat, direction, channels);
    if i < before.len() {
        maps_name_their_channels(natives, fallback, (n - 1) as nat, direction, channels, i);
    }
}

/// Every map that is published, of whatever device and layout, names its channels in their order:
/// left is on the left.
pub proof fn channels_are_named_in_order(
    outputs: Seq<Option<NativeConfig>>,
    inputs: Seq<Option<NativeConfig>>,
    i: int,
)
    requires
        0 <= i < all_maps(outputs, inputs).len(),
    ensures
        names_its_channels(all_maps(outputs, inputs)[i]),
{
    layouts_name_their_channels(outputs, inputs, 2);
    layouts_name_their_channels(outputs, inputs, 4);
    layouts_name_their_channels(outputs, inputs, 6);
}

/// The maps of a layout, of outputs and of inputs, name their channels.
proof fn layouts_name_their_channels(
    outputs: Seq<Option<NativeConfig>>,
    inputs: Seq<Option<NativeConfig>>,
    channels: u8,
)
    requires
        channels == 2 || channels == 4 || channels == 6,
    ensures
        forall|i: int|
            0 <= i < maps_of_layout(outputs, inputs, channels).len() ==> names_its_channels(
                #[trigger] maps_of_layout(outputs, inputs, channels)[i],
            ),
{
    let all = maps_of_layout(outputs, inputs, channels);
    let first = maps_of(
        outputs,
        FALLBACK_OUTPUT_CHANNELS,
        outputs.len(),
        VIRTIO_SND_D_OUTPUT,
        channels,
    );
    assert forall|i: int| 0 <= i < all.len() implies names_its_channels(#[trigger] all[i]) by {
        if i < first.len() {
            maps_name_their_channels(
                outputs,
                FALLBACK_OUTPUT_CHANNELS,
                outputs.len(),
                VIRTIO_SND_D_OUTPUT,
                channels,
                i,
            );
        } else {
            maps_name_their_channels(
                inputs,
                FALLBACK_INPUT_CHANNELS,
                inputs.len(),
                VIRTIO_SND_D_INPUT,
                channels,
                i - first.len(),
            );
        }
    }
}

/// A device has a map of a layout exactly where it has so many channels, and then one.
proof fn a_layout_that_fits_has_a_map(
    natives: Seq<Option<NativeConfig>>,
    fallback: u8,
    n: nat,
    direction: u8,
    channels: u8,
    device: u32,
)
    requires
        n <= natives.len() <= u32::MAX,
        device < natives.len(),
    ensures
        maps_for(maps_of(natives, fallback, n, direction, channels), device, direction, channels)
            == (if device < n && channels <= widest(natives[device as int], fallback) {
            1int
        } else {
            0
        }),
    decreases n,
{
    if n > 0 {
        a_layout_that_fits_has_a_map(
            natives,
            fallback,
            (n - 1) as nat,
            direction,
            channels,
            device,
        );
        let before = maps_of(natives, fallback, (n - 1) as nat, direction, channels);
        let now = maps_of(natives, fallback, n, direction, channels);
        if now.len() > before.len() {
            assert(now.drop_last() =~= before);
        }
    }
}

/// How many maps there are of a layout, for a device of a direction.
pub open spec fn maps_for(maps: Seq<ChmapView>, device: u32, direction: u8, channels: u8) -> int
    decreases maps.len(),
{
    if maps.len() == 0 {
        0
    } else {
        maps_for(maps.drop_last(), device, direction, channels) + (if maps.last().hda_fn_nid
            == device && maps.last().direction == direction && maps.last().channels == channels {
            1int
        } else {
            0
        })
    }
}

/// The maps of two lists.
proof fn maps_add_up(a: Seq<ChmapView>, b: Seq<ChmapView>, device: u32, direction: u8, channels: u8)
    ensures
        maps_for(a + b, device, direction, channels) == maps_for(a, device, direction, channels)
            + maps_for(b, device, direction, channels),
    decreases b.len(),
{
    if b.len() == 0 {
        assert(a + b =~= a);
    } else {
        maps_add_up(a, b.drop_last(), device, direction, channels);
        assert((a + b).drop_last() =~= a + b.drop_last());
    }
}

/// Maps of another direction or layout do not count.
proof fn other_maps_do_not_count(
    natives: Seq<Option<NativeConfig>>,
    fallback: u8,
    n: nat,
    of: u8,
    with: u8,
    device: u32,
    direction: u8,
    channels: u8,
)
    requires
        of != direction || with != channels,
    ensures
        maps_for(maps_of(natives, fallback, n, of, with), device, direction, channels) == 0,
    decreases n,
{
    if n > 0 {
        other_maps_do_not_count(
            natives,
            fallback,
            (n - 1) as nat,
            of,
            with,
            device,
            direction,
            channels,
        );
        let before = maps_of(natives, fallback, (n - 1) as nat, of, with);
        let now = maps_of(natives, fallback, n, of, with);
        if now.len() > before.len() {
            assert(now.drop_last() =~= before);
        }
    }
}

/// The most channels of an endpoint that is known, and of one that is not: six of an output and two
/// of an input. There is always one.
pub open spec fn channels_of(native: Option<NativeConfig>, is_output: bool) -> int {
    match native {
        Some(n) => if n.num_channels > 1 {
            n.num_channels as int
        } else {
            1
        },
        None => if is_output {
            6
        } else {
            2
        },
    }
}

/// The guest is told of a layout of two, four or six channels once for every device that has so many,
/// and not for the others.
pub proof fn every_layout_that_fits_is_published(
    outputs: Seq<Option<NativeConfig>>,
    inputs: Seq<Option<NativeConfig>>,
    device: u32,
    is_output: bool,
    channels: u8,
)
    requires
        outputs.len() <= u32::MAX,
        inputs.len() <= u32::MAX,
        device < (if is_output {
            outputs.len()
        } else {
            inputs.len()
        }),
        channels == 2 || channels == 4 || channels == 6,
    ensures
        maps_for(
            all_maps(outputs, inputs),
            device,
            if is_output {
                0
            } else {
                1
            },
            channels,
        ) == (if channels <= channels_of(
            if is_output {
                outputs[device as int]
            } else {
                inputs[device as int]
            },
            is_output,
        ) {
            1int
        } else {
            0
        }),
{
    let direction: u8 = if is_output {
        0
    } else {
        1
    };
    layout_counts(outputs, inputs, 2, device, is_output, channels);
    layout_counts(outputs, inputs, 4, device, is_output, channels);
    layout_counts(outputs, inputs, 6, device, is_output, channels);
    let two = maps_of_layout(outputs, inputs, 2);
    let four = maps_of_layout(outputs, inputs, 4);
    let six = maps_of_layout(outputs, inputs, 6);
    maps_add_up(two, four, device, direction, channels);
    maps_add_up(two + four, six, device, direction, channels);
}

/// How many maps of a device one layout has.
proof fn layout_counts(
    outputs: Seq<Option<NativeConfig>>,
    inputs: Seq<Option<NativeConfig>>,
    with: u8,
    device: u32,
    is_output: bool,
    channels: u8,
)
    requires
        outputs.len() <= u32::MAX,
        inputs.len() <= u32::MAX,
        device < (if is_output {
            outputs.len()
        } else {
            inputs.len()
        }),
    ensures
        maps_for(
            maps_of_layout(outputs, inputs, with),
            device,
            if is_output {
                0
            } else {
                1
            },
            channels,
        ) == (if with == channels && channels <= channels_of(
            if is_output {
                outputs[device as int]
            } else {
                inputs[device as int]
            },
            is_output,
        ) {
            1int
        } else {
            0
        }),
{
    let direction: u8 = if is_output {
        0
    } else {
        1
    };
    let a = maps_of(outputs, FALLBACK_OUTPUT_CHANNELS, outputs.len(), VIRTIO_SND_D_OUTPUT, with);
    let b = maps_of(inputs, FALLBACK_INPUT_CHANNELS, inputs.len(), VIRTIO_SND_D_INPUT, with);
    maps_add_up(a, b, device, direction, channels);
    if with != channels || !is_output {
        other_maps_do_not_count(
            outputs,
            FALLBACK_OUTPUT_CHANNELS,
            outputs.len(),
            VIRTIO_SND_D_OUTPUT,
            with,
            device,
            direction,
            channels,
        );
    } else {
        a_layout_that_fits_has_a_map(
            outputs,
            FALLBACK_OUTPUT_CHANNELS,
            outputs.len(),
            VIRTIO_SND_D_OUTPUT,
            with,
            device,
        );
    }
    if with != channels || is_output {
        other_maps_do_not_count(
            inputs,
            FALLBACK_INPUT_CHANNELS,
            inputs.len(),
            VIRTIO_SND_D_INPUT,
            with,
            device,
            direction,
            channels,
        );
    } else {
        a_layout_that_fits_has_a_map(
            inputs,
            FALLBACK_INPUT_CHANNELS,
            inputs.len(),
            VIRTIO_SND_D_INPUT,
            with,
            device,
        );
    }
}

/// What each stream is: the streams of the outputs come first, so many of each device in turn, and
/// those of the inputs behind them. Every stream takes 16-bit and 32-bit integers and floating
/// point, from one channel up to those of its device.
pub proof fn streams_belong_to_their_devices(
    outputs: Seq<Option<NativeConfig>>,
    inputs: Seq<Option<NativeConfig>>,
    output_streams: u32,
    input_streams: u32,
    device: int,
    k: int,
)
    requires
        outputs.len() <= u32::MAX,
        inputs.len() <= u32::MAX,
    ensures
        ({
            let all = streams_of(
                outputs,
                FALLBACK_OUTPUT_CHANNELS,
                output_streams,
                VIRTIO_SND_D_OUTPUT,
            ) + streams_of(inputs, FALLBACK_INPUT_CHANNELS, input_streams, VIRTIO_SND_D_INPUT);
            let first = outputs.len() * output_streams;
            let out = all[device * output_streams + k];
            let inp = all[first + device * input_streams + k];
            &&& all.len() == first + inputs.len() * input_streams
            &&& 0 <= device < outputs.len() && 0 <= k < output_streams ==> {
                &&& out.hda_fn_nid == device
                &&& out.direction == 0
                &&& out.features == 0
                &&& out.formats == 0x20 + 0x2_0000 + 0x8_0000
                &&& out.channels_min == 1
                &&& out.channels_max == channels_of(outputs[device], true)
                &&& out.rates == (match outputs[device] {
                    Some(n) => rates_below(n.frame_rate),
                    None => 0xfe,
                })
            }
            &&& 0 <= device < inputs.len() && 0 <= k < input_streams ==> {
                &&& inp.hda_fn_nid == device
                &&& inp.direction == 1
                &&& inp.features == 0
                &&& inp.formats == 0x20 + 0x2_0000 + 0x8_0000
                &&& inp.channels_min == 1
                &&& inp.channels_max == channels_of(inputs[device], false)
                &&& inp.rates == (match inputs[device] {
                    Some(n) => rates_below(n.frame_rate),
                    None => 0xfe,
                })
            }
        }),
{
    let a = streams_of(outputs, FALLBACK_OUTPUT_CHANNELS, output_streams, VIRTIO_SND_D_OUTPUT);
    let b = streams_of(inputs, FALLBACK_INPUT_CHANNELS, input_streams, VIRTIO_SND_D_INPUT);
    assert(a.len() == outputs.len() * output_streams && b.len() == inputs.len() * input_streams)
        by {
        assert(outputs.len() * output_streams >= 0 && inputs.len() * input_streams >= 0)
            by (nonlinear_arith);
    }
    if 0 <= device < outputs.len() && 0 <= k < output_streams {
        stream_index(outputs.len() as int, output_streams as int, device, k);
        if let Some(n) = outputs[device] {
            some_rate_is_offered(n.frame_rate);
        }
    }
    if 0 <= device < inputs.len() && 0 <= k < input_streams {
        stream_index(inputs.len() as int, input_streams as int, device, k);
        if let Some(n) = inputs[device] {
            some_rate_is_offered(n.frame_rate);
        }
    }
}

/// The index of a stream leads to its device.
proof fn stream_index(devices: int, per: int, device: int, k: int)
    requires
        0 <= device < devices,
        0 <= k < per,
    ensures
        0 <= device * per + k < devices * per,
        (device * per + k) / per == device,
{
    assert(0 <= device * per && device * per + per <= devices * per) by (nonlinear_arith)
        requires
            0 <= device,
            device + 1 <= devices,
            0 < per,
    ;
    lemma_fundamental_div_mod_converse(device * per + k, per, device, k);
}

/// Every stream has at least one channel, and as many at most as it says.
pub proof fn streams_have_channels(native: Option<NativeConfig>, fallback: u8, device: u32, d: u8)
    ensures
        1 == stream_of(native, fallback, device, d).channels_min <= stream_of(
            native,
            fallback,
            device,
            d,
        ).channels_max,
        stream_of(native, fallback, device, d).features == 0,
{
}

/// A map is only of a layout that the streams of its device can have.
pub proof fn maps_fit_their_device(
    natives: Seq<Option<NativeConfig>>,
    fallback: u8,
    n: nat,
    direction: u8,
    channels: u8,
    i: int,
)
    requires
        n <= natives.len() <= u32::MAX,
        0 <= i < maps_of(natives, fallback, n, direction, channels).len(),
    ensures
        ({
            let m = maps_of(natives, fallback, n, direction, channels)[i];
            &&& m.hda_fn_nid < n
            &&& m.direction == direction
            &&& m.channels == channels
            &&& m.channels <= stream_of(
                natives[m.hda_fn_nid as int],
                fallback,
                m.hda_fn_nid,
                direction,
            ).channels_max
        }),
    decreases n,
{
    let before = maps_of(natives, fallback, (n - 1) as nat, direction, channels);
    if n > 0 && i < before.len() {
        maps_fit_their_device(natives, fallback, (n - 1) as nat, direction, channels, i);
    }
}

/// The maps of a narrower layout come first, and of one layout those of playback; of a direction they are
/// in the order of the devices.
pub open spec fn is_before(a: ChmapView, b: ChmapView) -> bool {
    a.channels < b.channels || (a.channels == b.channels && (a.direction < b.direction || (
    a.direction == b.direction && a.hda_fn_nid < b.hda_fn_nid)))
}

/// Every map is one of a layout, a direction and a device of it.
proof fn maps_are_of_their_layout(
    natives: Seq<Option<NativeConfig>>,
    fallback: u8,
    n: nat,
    direction: u8,
    channels: u8,
)
    requires
        n <= natives.len() <= u32::MAX,
    ensures
        ({
            let s = maps_of(natives, fallback, n, direction, channels);
            &&& forall|i: int|
                0 <= i < s.len() ==> (#[trigger] s[i]).channels == channels && s[i].direction
                    == direction && s[i].hda_fn_nid < n
            &&& forall|i: int, j: int|
                #![trigger s[i], s[j]]
                0 <= i < j < s.len() ==> s[i].hda_fn_nid < s[j].hda_fn_nid
        }),
    decreases n,
{
    if n > 0 {
        maps_are_of_their_layout(natives, fallback, (n - 1) as nat, direction, channels);
        let before = maps_of(natives, fallback, (n - 1) as nat, direction, channels);
        let s = maps_of(natives, fallback, n, direction, channels);
        assert forall|i: int, j: int|
            #![trigger s[i], s[j]]
            0 <= i < j < s.len() implies s[i].hda_fn_nid < s[j].hda_fn_nid by {
            assert(s[i] == before[i]);
            if j < before.len() {
                assert(s[j] == before[j]);
            }
        }
        assert forall|i: int| 0 <= i < s.len() implies (#[trigger] s[i]).channels == channels
            && s[i].direction == direction && s[i].hda_fn_nid < n by {
            if i < before.len() {
                assert(s[i] == before[i]);
            }
        }
    }
}

/// The maps of a layout are in order.
proof fn layouts_are_in_order(
    outputs: Seq<Option<NativeConfig>>,
    inputs: Seq<Option<NativeConfig>>,
    channels: u8,
)
    requires
        outputs.len() <= u32::MAX,
        inputs.len() <= u32::MAX,
    ensures
        ({
            let s = maps_of_layout(outputs, inputs, channels);
            &&& forall|i: int| 0 <= i < s.len() ==> (#[trigger] s[i]).channels == channels
            &&& forall|i: int, j: int|
                #![trigger s[i], s[j]]
                0 <= i < j < s.len() ==> is_before(s[i], s[j])
        }),
{
    let a = maps_of(
        outputs,
        FALLBACK_OUTPUT_CHANNELS,
        outputs.len(),
        VIRTIO_SND_D_OUTPUT,
        channels,
    );
    let b = maps_of(inputs, FALLBACK_INPUT_CHANNELS, inputs.len(), VIRTIO_SND_D_INPUT, channels);
    maps_are_of_their_layout(
        outputs,
        FALLBACK_OUTPUT_CHANNELS,
        outputs.len(),
        VIRTIO_SND_D_OUTPUT,
        channels,
    );
    maps_are_of_their_layout(
        inputs,
        FALLBACK_INPUT_CHANNELS,
        inputs.len(),
        VIRTIO_SND_D_INPUT,
        channels,
    );
    let s = maps_of_layout(outputs, inputs, channels);
    assert forall|i: int| 0 <= i < s.len() implies (#[trigger] s[i]).channels == channels by {
        if i < a.len() {
            assert(s[i] == a[i]);
        } else {
            assert(s[i] == b[i - a.len()]);
        }
    }
    assert forall|i: int, j: int|
        #![trigger s[i], s[j]]
        0 <= i < j < s.len() implies is_before(s[i], s[j]) by {
        if j < a.len() {
            assert(s[i] == a[i] && s[j] == a[j]);
        } else if i < a.len() {
            assert(s[i] == a[i] && s[j] == b[j - a.len()]);
        } else {
            assert(s[i] == b[i - a.len()] && s[j] == b[j - a.len()]);
        }
    }
}

/// The guest is told of the maps in order.
pub proof fn maps_are_published_in_order(
    outputs: Seq<Option<NativeConfig>>,
    inputs: Seq<Option<NativeConfig>>,
    i: int,
    j: int,
)
    requires
        outputs.len() <= u32::MAX,
        inputs.len() <= u32::MAX,
        0 <= i < j < all_maps(outputs, inputs).len(),
    ensures
        is_before(all_maps(outputs, inputs)[i], all_maps(outputs, inputs)[j]),
{
    layouts_are_in_order(outputs, inputs, 2);
    layouts_are_in_order(outputs, inputs, 4);
    layouts_are_in_order(outputs, inputs, 6);
    let two = maps_of_layout(outputs, inputs, 2);
    let four = maps_of_layout(outputs, inputs, 4);
    let six = maps_of_layout(outputs, inputs, 6);
    let s = all_maps(outputs, inputs);
    assert forall|k: int| 0 <= k < s.len() implies #[trigger] s[k] == (if k < two.len() {
        two[k]
    } else if k < two.len() + four.len() {
        four[k - two.len()]
    } else {
        six[k - two.len() - four.len()]
    }) by {}
    assert(s[i].channels <= s[j].channels);
}

} // verus!
