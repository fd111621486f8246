//! How a sound device is configured.

use crate::bytes;
use crate::snd::{PcmInfo, VIRTIO_SND_D_INPUT, VIRTIO_SND_D_OUTPUT};
use vstd::prelude::*;

verus! {

#[derive(Debug, PartialEq, Eq)]
pub enum Error {
    /// The value, and what was expected of it.
    InvalidParameterValue(String, String),
    /// There is no such backend.
    InvalidBackend,
    /// The length of the device configuration is less than the number of devices.
    InvalidPCMDeviceConfigIndex(usize),
    /// A direction is neither output nor input.
    InvalidPCMInfoDirection(u8),
}

/// What the platform makes sound with.
#[derive(Debug, Clone, Copy, PartialEq, Eq, Structural)]
pub enum SysStreamSourceBackend {
    AAUDIO,
    CRAS,
}

impl SysStreamSourceBackend {
    /// The name of the backend.
    pub open spec fn text(self) -> Seq<char> {
        match self {
            SysStreamSourceBackend::AAUDIO => "aaudio"@,
            SysStreamSourceBackend::CRAS => "cras"@,
        }
    }

    /// The backend of that name.
    pub open spec fn named(s: Seq<char>) -> Option<Self> {
        if s == "aaudio"@ {
            Some(SysStreamSourceBackend::AAUDIO)
        } else if s == "cras"@ {
            Some(SysStreamSourceBackend::CRAS)
        } else {
            None
        }
    }

    /// The name of the backend.
    pub fn into_string(self) -> (r: String)
        ensures
            r@ == self.text(),
    {
        match self {
            SysStreamSourceBackend::AAUDIO => "aaudio".to_owned(),
            SysStreamSourceBackend::CRAS => "cras".to_owned(),
        }
    }

    /// The backend of that name, if there is one.
    pub fn try_from(s: &str) -> (r: Result<Self, Error>)
        ensures
            match Self::named(s@) {
                Some(b) => r == Ok::<Self, Error>(b),
                None => r == Err::<Self, Error>(Error::InvalidBackend),
            },
    {
        if bytes::text_equal(s, "aaudio") {
            Ok(SysStreamSourceBackend::AAUDIO)
        } else if bytes::text_equal(s, "cras") {
            Ok(SysStreamSourceBackend::CRAS)
        } else {
            Err(Error::InvalidBackend)
        }
    }
}

/// What a device makes sound with.
#[derive(Debug, Clone, Copy, PartialEq, Eq, Structural)]
pub enum StreamSourceBackend {
    NULL,
    FILE,
    Sys(SysStreamSourceBackend),
}

impl StreamSourceBackend {
    /// The name of the backend.
    pub open spec fn text(self) -> Seq<char> {
        match self {
            StreamSourceBackend::NULL => "null"@,
            StreamSourceBackend::FILE => "file"@,
            StreamSourceBackend::Sys(b) => b.text(),
        }
    }

    /// The backend of that name.
    pub open spec fn named(s: Seq<char>) -> Option<Self> {
        if s == "null"@ {
            Some(StreamSourceBackend::NULL)
        } else if s == "file"@ {
            Some(StreamSourceBackend::FILE)
        } else {
            match SysStreamSourceBackend::named(s) {
                Some(b) => Some(StreamSourceBackend::Sys(b)),
                None => None,
            }
        }
    }

    /// The name of the backend.
    pub fn into_string(self) -> (r: String)
        ensures
            r@ == self.text(),
    {
        match self {
            StreamSourceBackend::NULL => "null".to_owned(),
            StreamSourceBackend::FILE => "file".to_owned(),
            StreamSourceBackend::Sys(b) => b.into_string(),
        }
    }

    /// The backend of that name, if there is one.
    pub fn try_from(s: &str) -> (r: Result<Self, Error>)
        ensures
            match Self::named(s@) {
                Some(b) => r == Ok::<Self, Error>(b),
                None => r == Err::<Self, Error>(Error::InvalidBackend),
            },
    {
        if bytes::text_equal(s, "null") {
            Ok(StreamSourceBackend::NULL)
        } else if bytes::text_equal(s, "file") {
            Ok(StreamSourceBackend::FILE)
        } else {
            match SysStreamSourceBackend::try_from(s) {
                Ok(b) => Ok(StreamSourceBackend::Sys(b)),
                Err(e) => Err(e),
            }
        }
    }
}

/// A backend is found again by its name.
pub proof fn backends_are_found_by_name(b: StreamSourceBackend)
    ensures
        StreamSourceBackend::named(b.text()) == Some(b),
{
    reveal_strlit("null");
    reveal_strlit("file");
    reveal_strlit("aaudio");
    reveal_strlit("cras");
    assert("null"@[0] != "file"@[0]);
    assert("aaudio"@.len() != "null"@.len());
    assert("aaudio"@.len() != "file"@.len());
    assert("aaudio"@.len() != "cras"@.len());
    assert("cras"@[0] != "null"@[0]);
    assert("cras"@[0] != "file"@[0]);
}

/// What the device plays when the guest has not queued a period in time.
#[derive(Debug, Clone, Copy, PartialEq, Eq, Structural)]
pub enum UnderrunMode {
    /// Write a period of zeroes.
    Silence,
    /// Repeat the tail of the last good period, pitch-aligned and fading out.
    Repeat,
    /// Re-splice at the best match for each chunk.
    Wsola,
    /// Fit an all-pole filter to the last good period and run it on.
    Lpc,
}

impl Default for UnderrunMode {
    fn default() -> (r: Self)
        ensures
            r == UnderrunMode::Silence,
    {
        UnderrunMode::Silence
    }
}

impl UnderrunMode {
    /// The name of the mode.
    pub open spec fn text(self) -> Seq<char> {
        match self {
            UnderrunMode::Silence => "silence"@,
            UnderrunMode::Repeat => "repeat"@,
            UnderrunMode::Wsola => "wsola"@,
            UnderrunMode::Lpc => "lpc"@,
        }
    }

    /// The mode of that name.
    pub open spec fn named(s: Seq<char>) -> Option<Self> {
        if s == "silence"@ {
            Some(UnderrunMode::Silence)
        } else if s == "repeat"@ {
            Some(UnderrunMode::Repeat)
        } else if s == "wsola"@ {
            Some(UnderrunMode::Wsola)
        } else if s == "lpc"@ {
            Some(UnderrunMode::Lpc)
        } else {
            None
        }
    }

    /// The name of the mode.
    pub fn into_string(self) -> (r: String)
        ensures
            r@ == self.text(),
    {
        match self {
            UnderrunMode::Silence => "silence".to_owned(),
            UnderrunMode::Repeat => "repeat".to_owned(),
            UnderrunMode::Wsola => "wsola".to_owned(),
            UnderrunMode::Lpc => "lpc".to_owned(),
        }
    }

    /// The mode of that name; another name is refused with what was expected.
    pub fn try_from(s: &str) -> (r: Result<Self, Error>)
        ensures
            match Self::named(s@) {
                Some(m) => r == Ok::<Self, Error>(m),
                None => r matches Err(Error::InvalidParameterValue(value, expected)) && value@ == s@
                    && expected@ == "expected silence, repeat, wsola or lpc"@,
            },
    {
        if bytes::text_equal(s, "silence") {
            Ok(UnderrunMode::Silence)
        } else if bytes::text_equal(s, "repeat") {
            Ok(UnderrunMode::Repeat)
        } else if bytes::text_equal(s, "wsola") {
            Ok(UnderrunMode::Wsola)
        } else if bytes::text_equal(s, "lpc") {
            Ok(UnderrunMode::Lpc)
        } else {
            Err(
                Error::InvalidParameterValue(
                    s.to_owned(),
                    "expected silence, repeat, wsola or lpc".to_owned(),
                ),
            )
        }
    }
}

/// A mode is found again by its name.
pub proof fn modes_are_found_by_name(m: UnderrunMode)
    ensures
        UnderrunMode::named(m.text()) == Some(m),
{
    reveal_strlit("silence");
    reveal_strlit("repeat");
    reveal_strlit("wsola");
    reveal_strlit("lpc");
    assert("silence"@.len() == 7);
    assert("repeat"@.len() == 6);
    assert("wsola"@.len() == 5);
    assert("lpc"@.len() == 3);
}

/// What is done to captured sound.
#[derive(Debug, Clone, Copy, PartialEq, Eq, Structural)]
pub enum StreamEffect {
    NoEffect,
    EchoCancellation,
}

/// Who a stream of the CRAS server belongs to.
#[derive(Debug, Clone, Copy, PartialEq, Eq, Structural)]
pub enum CrasClientType {
    Crosvm,
    Arcvm,
}

/// What a stream of the CRAS server is for.
#[derive(Debug, Clone, Copy, PartialEq, Eq, Structural)]
pub enum CrasStreamType {
    Ordinary,
    VoiceCommunication,
    SpeechRecognition,
    ProAudio,
    Accessibility,
}

/// Which socket of the CRAS server is used.
#[derive(Debug, Clone, Copy, PartialEq, Eq, Structural)]
pub enum CrasSocketType {
    Legacy,
    Unified,
}

/// The parameters of one device.
#[derive(Debug, PartialEq, Eq)]
pub struct PCMDeviceParameters {
    pub client_type: Option<CrasClientType>,
    pub stream_type: Option<CrasStreamType>,
    pub effects: Option<Vec<StreamEffect>>,
    /// The host endpoint, as an id that the platform assigned at boot. `None` leaves the routing to
    /// the platform.
    pub device_id: Option<i32>,
    /// What the host endpoint runs at natively, in Hz.
    pub preferred_rate: Option<u32>,
    /// The same for the endpoint's channel count.
    pub preferred_channels: Option<u8>,
    /// What kind of thing the host endpoint is.
    pub endpoint_kind: Option<u32>,
    /// The host endpoint by a name that survives it being unplugged. Preferred over `device_id`.
    pub host_device: Option<String>,
}

/// What the parameters of a device say.
#[verifier::ext_equal]
pub struct PcmDeviceView {
    pub client_type: Option<CrasClientType>,
    pub stream_type: Option<CrasStreamType>,
    pub effects: Option<Seq<StreamEffect>>,
    pub device_id: Option<i32>,
    pub preferred_rate: Option<u32>,
    pub preferred_channels: Option<u8>,
    pub endpoint_kind: Option<u32>,
    pub host_device: Option<Seq<char>>,
}

impl View for PCMDeviceParameters {
    type V = PcmDeviceView;

    open spec fn view(&self) -> PcmDeviceView {
        PcmDeviceView {
            client_type: self.client_type,
            stream_type: self.stream_type,
            effects: match self.effects {
                Some(e) => Some(e@),
                None => None,
            },
            device_id: self.device_id,
            preferred_rate: self.preferred_rate,
            preferred_channels: self.preferred_channels,
            endpoint_kind: self.endpoint_kind,
            host_device: match self.host_device {
                Some(h) => Some(h@),
                None => None,
            },
        }
    }
}

/// Parameters that say nothing.
pub open spec fn unset() -> PcmDeviceView {
    PcmDeviceView {
        client_type: None,
        stream_type: None,
        effects: None,
        device_id: None,
        preferred_rate: None,
        preferred_channels: None,
        endpoint_kind: None,
        host_device: None,
    }
}

impl Default for PCMDeviceParameters {
    fn default() -> (r: Self)
        ensures
            r@ == unset(),
    {
        PCMDeviceParameters {
            client_type: None,
            stream_type: None,
            effects: None,
            device_id: None,
            preferred_rate: None,
            preferred_channels: None,
            endpoint_kind: None,
            host_device: None,
        }
    }
}

impl Clone for PCMDeviceParameters {
    fn clone(&self) -> (r: Self)
        ensures
            r@ == self@,
    {
        let effects: Option<Vec<StreamEffect>> = match &self.effects {
            Some(e) => {
                let mut out: Vec<StreamEffect> = Vec::new();
                let mut i: usize = 0;
                while i < e.len()
                    invariant
                        i <= e@.len(),
                        out@ == e@.take(i as int),
                    decreases e.len() - i,
                {
                    out.push(e[i]);
                    assert(out@ =~= e@.take(i + 1));
                    i = i + 1;
                }
                assert(out@ =~= e@);
                Some(out)
            },
            None => None,
        };
        let host_device: Option<String> = match &self.host_device {
            Some(h) => Some(h.clone()),
            None => None,
        };
        PCMDeviceParameters {
            client_type: self.client_type,
            stream_type: self.stream_type,
            effects,
            device_id: self.device_id,
            preferred_rate: self.preferred_rate,
            preferred_channels: self.preferred_channels,
            endpoint_kind: self.endpoint_kind,
            host_device,
        }
    }
}

/// The parameters of a sound device.
pub struct Parameters {
    pub capture: bool,
    pub num_output_devices: u32,
    pub num_input_devices: u32,
    pub backend: StreamSourceBackend,
    pub num_output_streams: u32,
    pub num_input_streams: u32,
    pub playback_path: String,
    pub playback_size: usize,
    pub client_type: CrasClientType,
    pub socket_type: CrasSocketType,
    pub output_device_config: Vec<PCMDeviceParameters>,
    pub input_device_config: Vec<PCMDeviceParameters>,
    pub card_index: usize,
    /// Where the platform's current audio device list is published. Empty when nobody publishes
    /// one, and only `device_id` works.
    pub device_table: String,
    /// What to play on underrun.
    pub underrun: UnderrunMode,
    /// How many periods the guest should try to keep in flight; 0 leaves it to the guest.
    pub guest_outstanding_packets: u32,
    /// Preferred period size in bytes; 0 means no preference.
    pub guest_period_bytes: u32,
    /// Run the backend in its own process under this uid.
    pub uid: Option<u32>,
    /// Group for that process. Defaults to `uid` when unset.
    pub gid: Option<u32>,
    /// Supplementary groups for that process.
    pub supp_gids: Vec<u32>,
    /// The guest reaches the device's memory through its DMA interface.
    pub access_platform: bool,
}

impl Default for Parameters {
    fn default() -> (r: Self)
        ensures
            !r.capture,
            r.num_output_devices == 1,
            r.num_input_devices == 1,
            r.backend == StreamSourceBackend::NULL,
            r.num_output_streams == 1,
            r.num_input_streams == 1,
            r.playback_path@ == Seq::<char>::empty(),
            r.playback_size == 0,
            r.client_type == CrasClientType::Crosvm,
            r.socket_type == CrasSocketType::Unified,
            r.output_device_config@ == Seq::<PCMDeviceParameters>::empty(),
            r.input_device_config@ == Seq::<PCMDeviceParameters>::empty(),
            r.card_index == 0,
            r.device_table@ == Seq::<char>::empty(),
            r.underrun == UnderrunMode::Silence,
            r.guest_outstanding_packets == 0,
            r.guest_period_bytes == 0,
            r.uid is None,
            r.gid is None,
            r.supp_gids@ == Seq::<u32>::empty(),
            !r.access_platform,
    {
        Parameters {
            capture: false,
            num_output_devices: 1,
            num_input_devices: 1,
            backend: StreamSourceBackend::NULL,
            num_output_streams: 1,
            num_input_streams: 1,
            playback_path: String::new(),
            playback_size: 0,
            client_type: CrasClientType::Crosvm,
            socket_type: CrasSocketType::Unified,
            output_device_config: Vec::new(),
            input_device_config: Vec::new(),
            card_index: 0,
            device_table: String::new(),
            underrun: UnderrunMode::Silence,
            guest_outstanding_packets: 0,
            guest_period_bytes: 0,
            uid: None,
            gid: None,
            supp_gids: Vec::new(),
            access_platform: false,
        }
    }
}

/// A configuration brought to a length: what is there stays, as far as it goes, and what is missing
/// says nothing.
pub open spec fn is_resized(
    before: Seq<PCMDeviceParameters>,
    after: Seq<PCMDeviceParameters>,
    n: nat,
) -> bool {
    &&& after.len() == n
    &&& forall|i: int|
        0 <= i < n ==> if i < before.len() {
            #[trigger] after[i] == before[i]
        } else {
            after[i]@ == unset()
        }
}

/// Brings a configuration to a length.
fn resize(config: &mut Vec<PCMDeviceParameters>, n: usize)
    ensures
        is_resized(old(config)@, final(config)@, n as nat),
{
    if config.len() > n {
        config.truncate(n);
    }
    while config.len() < n
        invariant
            config@.len() <= n,
            forall|i: int|
                0 <= i < config@.len() ==> if i < old(config)@.len() {
                    #[trigger] config@[i] == old(config)@[i]
                } else {
                    config@[i]@ == unset()
                },
            config@.len() >= old(config)@.len() || config@.len() == n,
        decreases n - config.len(),
    {
        config.push(PCMDeviceParameters::default());
    }
}

impl Parameters {
    pub open spec fn total_output_streams(&self) -> int {
        self.num_output_devices * self.num_output_streams
    }

    pub open spec fn total_input_streams(&self) -> int {
        self.num_input_devices * self.num_input_streams
    }

    /// The numbers of streams can be told in 32 bits.
    pub open spec fn countable(&self) -> bool {
        &&& self.total_output_streams() <= u32::MAX
        &&& self.total_input_streams() <= u32::MAX
        &&& self.total_output_streams() + self.total_input_streams() <= u32::MAX
    }

    /// The two differ in nothing but the configurations of their devices.
    pub open spec fn same_but_devices(&self, other: &Self) -> bool {
        &&& self.capture == other.capture
        &&& self.num_output_devices == other.num_output_devices
        &&& self.num_input_devices == other.num_input_devices
        &&& self.backend == other.backend
        &&& self.num_output_streams == other.num_output_streams
        &&& self.num_input_streams == other.num_input_streams
        &&& self.playback_path == other.playback_path
        &&& self.playback_size == other.playback_size
        &&& self.client_type == other.client_type
        &&& self.socket_type == other.socket_type
        &&& self.card_index == other.card_index
        &&& self.device_table == other.device_table
        &&& self.underrun == other.underrun
        &&& self.guest_outstanding_packets == other.guest_outstanding_packets
        &&& self.guest_period_bytes == other.guest_period_bytes
        &&& self.uid == other.uid
        &&& self.gid == other.gid
        &&& self.supp_gids == other.supp_gids
        &&& self.access_platform == other.access_platform
    }

    pub fn get_total_output_streams(&self) -> (r: u32)
        requires
            self.total_output_streams() <= u32::MAX,
        ensures
            r == self.total_output_streams(),
    {
        assert(0 <= self.total_output_streams()) by (nonlinear_arith)
            requires
                self.total_output_streams() == self.num_output_devices * self.num_output_streams,
        ;
        self.num_output_devices * self.num_output_streams
    }

    pub fn get_total_input_streams(&self) -> (r: u32)
        requires
            self.total_input_streams() <= u32::MAX,
        ensures
            r == self.total_input_streams(),
    {
        assert(0 <= self.total_input_streams()) by (nonlinear_arith)
            requires
                self.total_input_streams() == self.num_input_devices * self.num_input_streams,
        ;
        self.num_input_devices * self.num_input_streams
    }

    pub fn get_total_streams(&self) -> (r: u32)
        requires
            self.countable(),
        ensures
            r == self.total_output_streams() + self.total_input_streams(),
    {
        self.get_total_output_streams() + self.get_total_input_streams()
    }

    /// The configuration of the devices of a direction.
    pub open spec fn config_of(&self, direction: u8) -> Option<Seq<PCMDeviceParameters>> {
        if direction == VIRTIO_SND_D_OUTPUT {
            Some(self.output_device_config@)
        } else if direction == VIRTIO_SND_D_INPUT {
            Some(self.input_device_config@)
        } else {
            None
        }
    }

    /// The parameters of the device that a stream belongs to.
    pub fn get_device_params(&self, pcm_info: &PcmInfo) -> (r: Result<PCMDeviceParameters, Error>)
        ensures
            match self.config_of(pcm_info.direction) {
                None => r == Err::<PCMDeviceParameters, Error>(
                    Error::InvalidPCMInfoDirection(pcm_info.direction),
                ),
                Some(config) => if pcm_info.hda_fn_nid < config.len() {
                    r matches Ok(p) && p@ == config[pcm_info.hda_fn_nid as int]@
                } else {
                    r == Err::<PCMDeviceParameters, Error>(
                        Error::InvalidPCMDeviceConfigIndex(pcm_info.hda_fn_nid as usize),
                    )
                },
            },
    {
        let device_config: &Vec<PCMDeviceParameters> = if pcm_info.direction
            == VIRTIO_SND_D_OUTPUT {
            &self.output_device_config
        } else if pcm_info.direction == VIRTIO_SND_D_INPUT {
            &self.input_device_config
        } else {
            return Err(Error::InvalidPCMInfoDirection(pcm_info.direction));
        };
        let device_idx: usize = pcm_info.hda_fn_nid as usize;
        if device_idx < device_config.len() {
            Ok(device_config[device_idx].clone())
        } else {
            Err(Error::InvalidPCMDeviceConfigIndex(device_idx))
        }
    }
}

/// Brings the configurations to the numbers of devices.
pub fn resize_parameters_pcm_device_config(params: Parameters) -> (r: Parameters)
    ensures
        r.same_but_devices(&params),
        is_resized(
            params.output_device_config@,
            r.output_device_config@,
            params.num_output_devices as nat,
        ),
        is_resized(
            params.input_device_config@,
            r.input_device_config@,
            params.num_input_devices as nat,
        ),
{
    let mut params = params;
    let outputs: usize = params.num_output_devices as usize;
    let inputs: usize = params.num_input_devices as usize;
    resize(&mut params.output_device_config, outputs);
    resize(&mut params.input_device_config, inputs);
    params
}

/// After the configurations were brought to length, every stream of an existing device has
/// parameters.
pub proof fn every_device_is_configured(
    before: Seq<PCMDeviceParameters>,
    after: Seq<PCMDeviceParameters>,
    n: nat,
    device: int,
)
    requires
        is_resized(before, after, n),
        0 <= device < n,
    ensures
        after.len() == n,
        after[device]@ == (if device < before.len() {
            before[device]@
        } else {
            unset()
        }),
{
    let d = after[device];
}

/// The backends and the modes have the names that a configuration gives them.
pub proof fn names_are_spelled_out(b: StreamSourceBackend, m: UnderrunMode)
    ensures
        b.text() == match b {
            StreamSourceBackend::NULL => seq!['n', 'u', 'l', 'l'],
            StreamSourceBackend::FILE => seq!['f', 'i', 'l', 'e'],
            StreamSourceBackend::Sys(SysStreamSourceBackend::AAUDIO) => seq![
                'a', 'a', 'u', 'd', 'i', 'o',
            ],
            StreamSourceBackend::Sys(SysStreamSourceBackend::CRAS) => seq!['c', 'r', 'a', 's'],
        },
        m.text() == match m {
            UnderrunMode::Silence => seq!['s', 'i', 'l', 'e', 'n', 'c', 'e'],
            UnderrunMode::Repeat => seq!['r', 'e', 'p', 'e', 'a', 't'],
            UnderrunMode::Wsola => seq!['w', 's', 'o', 'l', 'a'],
            UnderrunMode::Lpc => seq!['l', 'p', 'c'],
        },
{
    reveal_strlit("null");
    reveal_strlit("file");
    reveal_strlit("aaudio");
    reveal_strlit("cras");
    reveal_strlit("silence");
    reveal_strlit("repeat");
    reveal_strlit("wsola");
    reveal_strlit("lpc");
    assert("null"@ =~= seq!['n', 'u', 'l', 'l']);
    assert("file"@ =~= seq!['f', 'i', 'l', 'e']);
    assert("aaudio"@ =~= seq!['a', 'a', 'u', 'd', 'i', 'o']);
    assert("cras"@ =~= seq!['c', 'r', 'a', 's']);
    assert("silence"@ =~= seq!['s', 'i', 'l', 'e', 'n', 'c', 'e']);
    assert("repeat"@ =~= seq!['r', 'e', 'p', 'e', 'a', 't']);
    assert("wsola"@ =~= seq!['w', 's', 'o', 'l', 'a']);
    assert("lpc"@ =~= seq!['l', 'p', 'c']);
}

/// What has a name is known by no other, and what is known by a name has it.
pub proof fn only_names_are_known(s: Seq<char>)
    ensures
        StreamSourceBackend::named(s) matches Some(b) ==> b.text() == s,
        SysStreamSourceBackend::named(s) matches Some(b) ==> b.text() == s,
        UnderrunMode::named(s) matches Some(m) ==> m.text() == s,
{
}

/// The devices of playback are in the direction zero and those of capture in the direction one, and
/// there is no other.
pub proof fn there_are_two_directions(params: Parameters, direction: u8)
    ensures
        params.config_of(direction) is Some <==> direction <= 1,
        params.config_of(0) == Some(params.output_device_config@),
        params.config_of(1) == Some(params.input_device_config@),
{
}

/// Every device has as many streams as every other of its direction: one device more has so many
/// streams more, and with no device there is none.
pub proof fn every_device_has_its_streams(a: Parameters, b: Parameters)
    requires
        b.num_output_streams == a.num_output_streams,
        b.num_input_streams == a.num_input_streams,
    ensures
        b.num_output_devices == a.num_output_devices + 1 ==> b.total_output_streams()
            == a.total_output_streams() + a.num_output_streams,
        b.num_input_devices == a.num_input_devices + 1 ==> b.total_input_streams()
            == a.total_input_streams() + a.num_input_streams,
        a.num_output_devices == 0 ==> a.total_output_streams() == 0,
        a.num_input_devices == 0 ==> a.total_input_streams() == 0,
{
    let n = a.num_output_devices as int;
    let s = a.num_output_streams as int;
    let m = a.num_input_devices as int;
    let t = a.num_input_streams as int;
    assert((n + 1) * s == n * s + s) by (nonlinear_arith);
    assert((m + 1) * t == m * t + t) by (nonlinear_arith);
}

} // verus!
