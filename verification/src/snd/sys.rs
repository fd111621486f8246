//! Which endpoint of the host each stream plays to or records from.

use crate::snd::data::SndData;
use crate::snd::parameters::{
    CrasClientType, CrasSocketType, CrasStreamType, PCMDeviceParameters, Parameters, StreamEffect,
    UnderrunMode,
};
use crate::snd::parameters;
use crate::snd::PcmInfo;
use vstd::prelude::*;

verus! {

/// The id of no endpoint: the platform chooses.
pub const AAUDIO_DEVICE_UNSPECIFIED: i32 = 0;

/// Where the sound of a stream of the Android backend goes to or comes from.
#[derive(Debug, PartialEq, Eq)]
pub enum AaudioEndpoint {
    /// The endpoint of that name, as a table of endpoints has it.
    HostKey { key: String, table: String },
    /// The endpoint of that number.
    DeviceId(i32),
}

/// The same, by what it says.
pub enum AaudioView {
    HostKey { key: Seq<char>, table: Seq<char> },
    DeviceId(i32),
}

impl View for AaudioEndpoint {
    type V = AaudioView;

    open spec fn view(&self) -> AaudioView {
        match self {
            AaudioEndpoint::HostKey { key, table } => AaudioView::HostKey {
                key: key@,
                table: table@,
            },
            AaudioEndpoint::DeviceId(id) => AaudioView::DeviceId(*id),
        }
    }
}

/// How a stream of the CRAS backend is opened.
#[derive(Debug, Clone, Copy, PartialEq, Eq, Structural)]
pub struct CrasStream {
    pub capture: bool,
    pub client_type: CrasClientType,
    pub socket_type: CrasSocketType,
    pub stream_type: CrasStreamType,
}

/// What a stream is built with.
#[derive(Debug, PartialEq, Eq)]
pub struct StreamSettings {
    pub effects: Vec<StreamEffect>,
    pub underrun: UnderrunMode,
}

/// What the configuration says of the device of a stream; nothing, where it has none.
pub open spec fn device_of(params: Parameters, info: PcmInfo) -> parameters::PcmDeviceView {
    match params.config_of(info.direction) {
        Some(config) => if info.hda_fn_nid < config.len() {
            config[info.hda_fn_nid as int]@
        } else {
            parameters::unset()
        },
        None => parameters::unset(),
    }
}

/// The endpoint of a device: its name is preferred to its number, which is only what the endpoint
/// happens to be called today.
pub open spec fn endpoint_of(device: parameters::PcmDeviceView, table: Seq<char>) -> AaudioView {
    match device.host_device {
        Some(key) if key.len() > 0 && table.len() > 0 => AaudioView::HostKey { key, table },
        _ => AaudioView::DeviceId(
            match device.device_id {
                Some(id) => id,
                None => AAUDIO_DEVICE_UNSPECIFIED,
            },
        ),
    }
}

/// How a device is opened with CRAS.
pub open spec fn cras_of(params: Parameters, device: parameters::PcmDeviceView) -> CrasStream {
    CrasStream {
        capture: params.capture,
        client_type: match device.client_type {
            Some(t) => t,
            None => params.client_type,
        },
        socket_type: params.socket_type,
        stream_type: match device.stream_type {
            Some(t) => t,
            None => CrasStreamType::Ordinary,
        },
    }
}

/// The effects of a device.
pub open spec fn effects_of(device: parameters::PcmDeviceView) -> Seq<StreamEffect> {
    match device.effects {
        Some(e) => e,
        None => Seq::empty(),
    }
}

/// The parameters of the device of a stream; unset ones, where it has none.
fn device_params(params: &Parameters, info: &PcmInfo) -> (r: PCMDeviceParameters)
    ensures
        r@ == device_of(*params, *info),
{
    match params.get_device_params(info) {
        Ok(p) => p,
        Err(_) => PCMDeviceParameters::default(),
    }
}

/// The endpoints of the streams with the Android backend, in order.
pub fn create_aaudio_stream_source_generators(params: &Parameters, snd_data: &SndData) -> (r: Vec<
    AaudioEndpoint,
>)
    requires
        forall|i: int|
            0 <= i < snd_data.pcm_info@.len() ==> #[trigger] snd_data.pcm_info@[i].features == 0,
    ensures
        r@.len() == snd_data.pcm_info@.len(),
        forall|i: int|
            0 <= i < r@.len() ==> #[trigger] r@[i]@ == endpoint_of(
                device_of(*params, snd_data.pcm_info@[i]),
                params.device_table@,
            ),
{
    let mut out: Vec<AaudioEndpoint> = Vec::new();
    let mut i: usize = 0;
    while i < snd_data.pcm_info.len()
        invariant
            i <= snd_data.pcm_info@.len(),
            out@.len() == i,
            forall|k: int|
                0 <= k < i ==> #[trigger] out@[k]@ == endpoint_of(
                    device_of(*params, snd_data.pcm_info@[k]),
                    params.device_table@,
                ),
        decreases snd_data.pcm_info.len() - i,
    {
        let device = device_params(params, &snd_data.pcm_info[i]);
        let id: i32 = match device.device_id {
            Some(id) => id,
            None => AAUDIO_DEVICE_UNSPECIFIED,
        };
        let no_table = crate::snd::data::is_empty(params.device_table.as_str());
        let endpoint = match &device.host_device {
            Some(key) => if !no_table && !crate::snd::data::is_empty(key.as_str()) {
                AaudioEndpoint::HostKey { key: key.clone(), table: params.device_table.clone() }
            } else {
                AaudioEndpoint::DeviceId(id)
            },
            None => AaudioEndpoint::DeviceId(id),
        };
        out.push(endpoint);
        i = i + 1;
    }
    out
}

/// How the streams are opened with the CRAS backend, in order.
pub fn create_cras_stream_source_generators(params: &Parameters, snd_data: &SndData) -> (r: Vec<
    CrasStream,
>)
    ensures
        r@.len() == snd_data.pcm_info@.len(),
        forall|i: int|
            0 <= i < r@.len() ==> #[trigger] r@[i] == cras_of(
                *params,
                device_of(*params, snd_data.pcm_info@[i]),
            ),
{
    let mut out: Vec<CrasStream> = Vec::new();
    let mut i: usize = 0;
    while i < snd_data.pcm_info.len()
        invariant
            i <= snd_data.pcm_info@.len(),
            out@.len() == i,
            forall|k: int|
                0 <= k < i ==> #[trigger] out@[k] == cras_of(
                    *params,
                    device_of(*params, snd_data.pcm_info@[k]),
                ),
        decreases snd_data.pcm_info.len() - i,
    {
        let device = device_params(params, &snd_data.pcm_info[i]);
        out.push(
            CrasStream {
                capture: params.capture,
                client_type: match device.client_type {
                    Some(t) => t,
                    None => params.client_type,
                },
                socket_type: params.socket_type,
                stream_type: match device.stream_type {
                    Some(t) => t,
                    None => CrasStreamType::Ordinary,
                },
            },
        );
        i = i + 1;
    }
    out
}

/// What the streams are built with, in order.
pub fn create_stream_info_builders(params: &Parameters, snd_data: &SndData) -> (r: Vec<
    StreamSettings,
>)
    ensures
        r@.len() == snd_data.pcm_info@.len(),
        forall|i: int|
            0 <= i < r@.len() ==> #[trigger] r@[i].underrun == params.underrun
                && r@[i].effects@ == effects_of(device_of(*params, snd_data.pcm_info@[i])),
{
    let mut out: Vec<StreamSettings> = Vec::new();
    let mut i: usize = 0;
    while i < snd_data.pcm_info.len()
        invariant
            i <= snd_data.pcm_info@.len(),
            out@.len() == i,
            forall|k: int|
                0 <= k < i ==> #[trigger] out@[k].underrun == params.underrun && out@[k].effects@
                    == effects_of(device_of(*params, snd_data.pcm_info@[k])),
        decreases snd_data.pcm_info.len() - i,
    {
        let device = device_params(params, &snd_data.pcm_info[i]);
        let effects: Vec<StreamEffect> = match device.effects {
            Some(e) => e,
            None => Vec::new(),
        };
        out.push(StreamSettings { effects, underrun: params.underrun });
        i = i + 1;
    }
    out
}

/// Frames of a period, whose bytes are `period_bytes`.
pub fn period_frames(period_bytes: usize, frame_size: usize) -> (r: usize)
    requires
        frame_size > 0,
    ensures
        r == period_bytes as int / frame_size as int,
        r * frame_size <= period_bytes < r * frame_size + frame_size,
{
    proof {
        vstd::arithmetic::div_mod::lemma_fundamental_div_mod(
            period_bytes as int,
            frame_size as int,
        );
        vstd::arithmetic::div_mod::lemma_mod_bound(period_bytes as int, frame_size as int);
        let q = period_bytes as int / frame_size as int;
        assert(frame_size * q == q * frame_size) by (nonlinear_arith);
    }
    period_bytes / frame_size
}

/// Without a table of endpoints, a name says nothing and the number decides.
pub proof fn names_need_a_table(device: parameters::PcmDeviceView)
    ensures
        endpoint_of(device, Seq::empty()) is DeviceId,
{
}

/// A stream has the parameters of the device of its number among those of its direction: playback is
/// zero and capture is one. Without such a device they say nothing.
pub proof fn streams_have_their_device(params: Parameters, info: PcmInfo)
    ensures
        info.direction == 0 && info.hda_fn_nid < params.output_device_config@.len() ==> device_of(
            params,
            info,
        ) == params.output_device_config@[info.hda_fn_nid as int]@,
        info.direction == 1 && info.hda_fn_nid < params.input_device_config@.len() ==> device_of(
            params,
            info,
        ) == params.input_device_config@[info.hda_fn_nid as int]@,
        device_of(params, info) != parameters::unset() ==> info.direction <= 1 && (
        info.hda_fn_nid < params.output_device_config@.len() || info.hda_fn_nid
            < params.input_device_config@.len()),
{
}

/// A device that has a name is found by it in a table, whatever its number is; one that has none, or
/// for which there is no table, is found by its number, and zero leaves the choice to the platform.
pub proof fn names_are_preferred(device: parameters::PcmDeviceView, table: Seq<char>)
    ensures
        ({
            let named = device.host_device is Some && device.host_device->0.len() > 0;
            &&& named && table.len() > 0 ==> endpoint_of(device, table) == (AaudioView::HostKey {
                key: device.host_device->0,
                table,
            })
            &&& !named || table.len() == 0 ==> endpoint_of(device, table) is DeviceId
            &&& endpoint_of(device, table) matches AaudioView::DeviceId(id) ==> (
            device.device_id is Some ==> device.device_id == Some(id)) && (device.device_id is None
                ==> id == 0)
        }),
{
}

/// What a device says of itself goes before what is said of all of them; where it says nothing, its
/// stream is an ordinary one of the common client, without effects.
pub proof fn devices_go_before_the_common(params: Parameters, device: parameters::PcmDeviceView)
    ensures
        ({
            let s = cras_of(params, device);
            &&& device.client_type is Some ==> device.client_type == Some(s.client_type)
            &&& device.client_type is None ==> s.client_type == params.client_type
            &&& device.stream_type is Some ==> device.stream_type == Some(s.stream_type)
            &&& device.stream_type is None ==> s.stream_type is Ordinary
            &&& s.capture == params.capture
            &&& s.socket_type == params.socket_type
        }),
        device.effects is Some ==> device.effects == Some(effects_of(device)),
        device.effects is None ==> effects_of(device).len() == 0,
{
}

} // verus!
