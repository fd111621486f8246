//! The configuration space of a sound device, with the hints that it publishes for the guest.

use crate::bytes;
use crate::snd::data::{NativeConfig, SndData};
use crate::snd::parameters::{PCMDeviceParameters, Parameters};
use vstd::prelude::*;

verus! {

/// Where the hints begin in the configuration space.
pub const DROIDVM_SND_CFG_OFFSET: usize = 64;

/// What the hints begin with: "DVMS".
pub const DROIDVM_SND_CFG_MAGIC: u32 = 0x534d_5644;

/// The version of the hints' layout.
pub const DROIDVM_SND_CFG_VERSION: u32 = 2;

/// For how many devices of a direction there are hints.
pub const DROIDVM_SND_CFG_MAX_DEVICES: usize = 8;

/// Bytes of the configuration space.
pub const DROIDVM_SND_CFG_SIZE: usize = 280;

/// What kind of thing a host endpoint is.
#[derive(Copy, Clone, PartialEq, Eq, Debug, Structural)]
pub enum DroidVmSndEndpointKind {
    Unknown,
    Speaker,
    Headphones,
    Headset,
    LineOut,
    Digital,
    Microphone,
    Telephony,
}

impl DroidVmSndEndpointKind {
    /// The number by which the guest knows the kind.
    pub open spec fn number(self) -> u32 {
        match self {
            DroidVmSndEndpointKind::Unknown => 0,
            DroidVmSndEndpointKind::Speaker => 1,
            DroidVmSndEndpointKind::Headphones => 2,
            DroidVmSndEndpointKind::Headset => 3,
            DroidVmSndEndpointKind::LineOut => 4,
            DroidVmSndEndpointKind::Digital => 5,
            DroidVmSndEndpointKind::Microphone => 6,
            DroidVmSndEndpointKind::Telephony => 7,
        }
    }

    /// The number by which the guest knows the kind.
    pub fn code(self) -> (r: u32)
        ensures
            r == self.number(),
    {
        match self {
            DroidVmSndEndpointKind::Unknown => 0,
            DroidVmSndEndpointKind::Speaker => 1,
            DroidVmSndEndpointKind::Headphones => 2,
            DroidVmSndEndpointKind::Headset => 3,
            DroidVmSndEndpointKind::LineOut => 4,
            DroidVmSndEndpointKind::Digital => 5,
            DroidVmSndEndpointKind::Microphone => 6,
            DroidVmSndEndpointKind::Telephony => 7,
        }
    }
}

/// The numbers tell the kinds apart.
pub proof fn kinds_are_told_apart(a: DroidVmSndEndpointKind, b: DroidVmSndEndpointKind)
    requires
        a.number() == b.number(),
    ensures
        a == b,
{
}

/// What one host endpoint is and what it runs at natively. Zero means "not known".
#[derive(Copy, Clone, Debug, PartialEq, Eq, Structural)]
pub struct DroidVmSndPreferred {
    pub rate: u32,
    pub channels: u32,
    pub kind: u32,
}

/// What is known of an endpoint: its rate, its channels and its kind, each zero where it is not
/// stated.
#[derive(Copy, Clone, Debug, PartialEq, Eq, Structural)]
pub struct Endpoint {
    pub rate: u32,
    pub channels: u8,
    pub kind: u32,
}

/// How many jacks, streams and channel maps there are.
#[derive(Copy, Clone, Debug, PartialEq, Eq, Structural)]
pub struct VirtioSndConfig {
    pub jacks: u32,
    pub streams: u32,
    pub chmaps: u32,
}

/// The configuration space: the counts, room for more of them, and the hints.
#[derive(Copy, Clone, Debug, PartialEq, Eq)]
pub struct DroidVmSndConfig {
    pub spec: VirtioSndConfig,
    pub controls: u32,
    pub magic: u32,
    pub version: u32,
    pub outstanding_packets: u32,
    pub period_bytes: u32,
    pub preferred_output_count: u32,
    pub preferred_input_count: u32,
    pub preferred_output: [DroidVmSndPreferred; 8],
    pub preferred_input: [DroidVmSndPreferred; 8],
}

/// No hint.
pub open spec fn no_hint() -> DroidVmSndPreferred {
    DroidVmSndPreferred { rate: 0, channels: 0, kind: 0 }
}

impl Default for DroidVmSndPreferred {
    fn default() -> (r: Self)
        ensures
            r == no_hint(),
    {
        DroidVmSndPreferred { rate: 0, channels: 0, kind: 0 }
    }
}

impl Default for DroidVmSndConfig {
    fn default() -> (r: Self)
        ensures
            r.spec == (VirtioSndConfig { jacks: 0, streams: 0, chmaps: 0 }),
            r.controls == 0,
            r.magic == 0,
            r.version == 0,
            r.outstanding_packets == 0,
            r.period_bytes == 0,
            r.preferred_output_count == 0,
            r.preferred_input_count == 0,
            forall|i: int| 0 <= i < 8 ==> r.preferred_output[i] == no_hint(),
            forall|i: int| 0 <= i < 8 ==> r.preferred_input[i] == no_hint(),
    {
        DroidVmSndConfig {
            spec: VirtioSndConfig { jacks: 0, streams: 0, chmaps: 0 },
            controls: 0,
            magic: 0,
            version: 0,
            outstanding_packets: 0,
            period_bytes: 0,
            preferred_output_count: 0,
            preferred_input_count: 0,
            preferred_output: [DroidVmSndPreferred { rate: 0, channels: 0, kind: 0 };8],
            preferred_input: [DroidVmSndPreferred { rate: 0, channels: 0, kind: 0 };8],
        }
    }
}

/// What the table of endpoints and the endpoint itself say of an endpoint: the table says what kind
/// it is, and only the endpoint what it runs at.
pub fn endpoint_properties(
    device_table: &str,
    table: Option<Endpoint>,
    native: Option<NativeConfig>,
) -> (r: Endpoint)
    ensures
        r == (if device_table@.len() == 0 {
            Endpoint { rate: 0, channels: 0, kind: 0 }
        } else {
            let stated = match table {
                Some(t) => t,
                None => Endpoint { rate: 0, channels: 0, kind: 0 },
            };
            match native {
                Some(n) => Endpoint {
                    rate: n.frame_rate,
                    channels: n.num_channels,
                    kind: stated.kind,
                },
                None => stated,
            }
        }),
        r == properties_of(device_table@.len() > 0, table, native),
{
    if crate::snd::data::is_empty(device_table) {
        return Endpoint { rate: 0, channels: 0, kind: 0 };
    }
    let stated = match table {
        Some(t) => t,
        None => Endpoint { rate: 0, channels: 0, kind: 0 },
    };
    match native {
        Some(n) => Endpoint { rate: n.frame_rate, channels: n.num_channels, kind: stated.kind },
        None => stated,
    }
}

/// Whether an endpoint has to be looked up: the configuration leaves something open, and names the
/// endpoint.
pub open spec fn is_looked_up(dev: PCMDeviceParameters) -> bool {
    &&& dev.preferred_rate is None || dev.preferred_channels is None || dev.endpoint_kind is None
    &&& dev.host_device is Some
}

/// The hint for a device: whoever wrote the configuration wins, and what it leaves open is looked
/// up.
pub open spec fn hint_of(dev: PCMDeviceParameters, looked_up: Endpoint) -> DroidVmSndPreferred {
    let found = if dev.host_device is Some {
        looked_up
    } else {
        Endpoint { rate: 0, channels: 0, kind: 0 }
    };
    DroidVmSndPreferred {
        rate: match dev.preferred_rate {
            Some(r) => r,
            None => found.rate,
        },
        channels: match dev.preferred_channels {
            Some(c) => c as u32,
            None => found.channels as u32,
        },
        kind: match dev.endpoint_kind {
            Some(k) => k,
            None => found.kind,
        },
    }
}

/// Whether an endpoint has to be looked up.
pub fn needs_lookup(dev: &PCMDeviceParameters) -> (r: bool)
    ensures
        r == is_looked_up(*dev),
{
    (dev.preferred_rate.is_none() || dev.preferred_channels.is_none()
        || dev.endpoint_kind.is_none()) && dev.host_device.is_some()
}

/// The hints for the devices of a direction, and how many there are: none for the devices past the
/// last place.
pub fn collect_preferred(devices: &[PCMDeviceParameters], looked_up: &[Endpoint]) -> (r: (
    [DroidVmSndPreferred; 8],
    u32,
))
    requires
        looked_up.len() == devices.len(),
    ensures
        r.1 == if devices@.len() < DROIDVM_SND_CFG_MAX_DEVICES {
            devices@.len() as int
        } else {
            DROIDVM_SND_CFG_MAX_DEVICES as int
        },
        forall|i: int|
            0 <= i < 8 ==> #[trigger] r.0[i] == if i < devices@.len() {
                hint_of(devices@[i], looked_up@[i])
            } else {
                no_hint()
            },
{
    let mut out: [DroidVmSndPreferred; 8] = [
        DroidVmSndPreferred { rate: 0, channels: 0, kind: 0 };8
    ];
    let count: usize = if devices.len() < DROIDVM_SND_CFG_MAX_DEVICES {
        devices.len()
    } else {
        DROIDVM_SND_CFG_MAX_DEVICES
    };
    let mut i: usize = 0;
    while i < count
        invariant
            i <= count <= 8,
            count <= devices@.len(),
            looked_up@.len() == devices@.len(),
            devices.len() == devices@.len(),
            looked_up.len() == looked_up@.len(),
            forall|k: int|
                0 <= k < 8 ==> #[trigger] out[k] == if k < i {
                    hint_of(devices@[k], looked_up@[k])
                } else {
                    no_hint()
                },
        decreases count - i,
    {
        let dev = &devices[i];
        let found = if dev.host_device.is_some() {
            looked_up[i]
        } else {
            Endpoint { rate: 0, channels: 0, kind: 0 }
        };
        let rate: u32 = match dev.preferred_rate {
            Some(v) => v,
            None => found.rate,
        };
        let channels: u8 = match dev.preferred_channels {
            Some(v) => v,
            None => found.channels,
        };
        let kind: u32 = match dev.endpoint_kind {
            Some(v) => v,
            None => found.kind,
        };
        out[i] = DroidVmSndPreferred { rate, channels: channels as u32, kind };
        i = i + 1;
    }
    (out, count as u32)
}

/// A device that is not looked up has a hint that does not depend on what would have been found.
pub proof fn what_is_not_looked_up_does_not_matter(
    dev: PCMDeviceParameters,
    a: Endpoint,
    b: Endpoint,
)
    requires
        !is_looked_up(dev),
    ensures
        hint_of(dev, a) == hint_of(dev, b),
{
}

/// The counts that the guest reads before it asks for anything: the channel maps are counted as
/// they were built.
pub fn hardcoded_virtio_snd_config(params: &Parameters, snd_data: &SndData) -> (r: VirtioSndConfig)
    requires
        params.countable(),
    ensures
        r.jacks == 0,
        r.streams == params.total_output_streams() + params.total_input_streams(),
        r.chmaps == snd_data.chmap_info.len() as u32,
{
    VirtioSndConfig {
        jacks: 0,
        streams: params.get_total_streams(),
        chmaps: snd_data.chmap_info.len() as u32,
    }
}

/// What was found of the endpoints of a device.
pub struct Lookups {
    pub outputs: Vec<Endpoint>,
    pub inputs: Vec<Endpoint>,
}

/// The configuration space of a device.
pub fn droidvm_snd_config(params: &Parameters, snd_data: &SndData, found: &Lookups) -> (r:
    DroidVmSndConfig)
    requires
        params.countable(),
        found.outputs@.len() == params.output_device_config@.len(),
        found.inputs@.len() == params.input_device_config@.len(),
    ensures
        r.spec.jacks == 0,
        r.spec.streams == params.total_output_streams() + params.total_input_streams(),
        r.spec.chmaps == snd_data.chmap_info.len() as u32,
        r.controls == 0,
        r.magic == DROIDVM_SND_CFG_MAGIC,
        r.version == DROIDVM_SND_CFG_VERSION,
        r.encoded().subrange(64, 72) == seq![0x44u8, 0x56, 0x4d, 0x53, 2, 0, 0, 0],
        r.outstanding_packets == params.guest_outstanding_packets,
        r.period_bytes == params.guest_period_bytes,
        is_hints(
            r.preferred_output,
            r.preferred_output_count,
            params.output_device_config@,
            found.outputs@,
        ),
        is_hints(
            r.preferred_input,
            r.preferred_input_count,
            params.input_device_config@,
            found.inputs@,
        ),
{
    let (preferred_output, preferred_output_count) = collect_preferred(
        params.output_device_config.as_slice(),
        found.outputs.as_slice(),
    );
    let (preferred_input, preferred_input_count) = collect_preferred(
        params.input_device_config.as_slice(),
        found.inputs.as_slice(),
    );
    let r = DroidVmSndConfig {
        spec: hardcoded_virtio_snd_config(params, snd_data),
        controls: 0,
        magic: DROIDVM_SND_CFG_MAGIC,
        version: DROIDVM_SND_CFG_VERSION,
        outstanding_packets: params.guest_outstanding_packets,
        period_bytes: params.guest_period_bytes,
        preferred_output_count,
        preferred_input_count,
        preferred_output,
        preferred_input,
    };
    proof {
        hints_say_what_they_are(r);
    }
    r
}

/// These are the hints for some devices.
pub open spec fn is_hints(
    hints: [DroidVmSndPreferred; 8],
    count: u32,
    devices: Seq<PCMDeviceParameters>,
    found: Seq<Endpoint>,
) -> bool {
    &&& count == if devices.len() < DROIDVM_SND_CFG_MAX_DEVICES {
        devices.len() as int
    } else {
        DROIDVM_SND_CFG_MAX_DEVICES as int
    }
    &&& forall|i: int|
        0 <= i < 8 ==> #[trigger] hints[i] == if i < devices.len() {
            hint_of(devices[i], found[i])
        } else {
            no_hint()
        }
}

/// The bytes of a number.
pub open spec fn word(v: u32) -> Seq<u8> {
    bytes::le_bytes(v as nat, 4)
}

/// The bytes of the first `n` hints.
pub open spec fn hint_bytes(hints: Seq<DroidVmSndPreferred>, n: nat) -> Seq<u8>
    decreases n,
{
    if n == 0 {
        Seq::empty()
    } else {
        hint_bytes(hints, (n - 1) as nat) + word(hints[n - 1].rate) + word(hints[n - 1].channels)
            + word(hints[n - 1].kind)
    }
}

impl DroidVmSndConfig {
    /// The counts, as bytes.
    pub open spec fn counts(&self) -> Seq<u8> {
        word(self.spec.jacks) + word(self.spec.streams) + word(self.spec.chmaps) + word(
            self.controls,
        )
    }

    /// The hints, as bytes.
    pub open spec fn hints(&self) -> Seq<u8> {
        word(self.magic) + word(self.version) + word(self.outstanding_packets) + word(
            self.period_bytes,
        ) + word(self.preferred_output_count) + word(self.preferred_input_count) + hint_bytes(
            self.preferred_output@,
            8,
        ) + hint_bytes(self.preferred_input@, 8)
    }

    /// The configuration space: the counts, room up to where the hints begin, and the hints.
    pub open spec fn encoded(&self) -> Seq<u8> {
        self.counts() + Seq::new(48, |i: int| 0u8) + self.hints()
    }

    /// The bytes of the configuration space.
    pub fn as_bytes(&self) -> (r: Vec<u8>)
        ensures
            r@ == self.encoded(),
            r@.len() == DROIDVM_SND_CFG_SIZE,
    {
        let mut out: Vec<u8> = Vec::new();
        push_word(&mut out, self.spec.jacks);
        push_word(&mut out, self.spec.streams);
        push_word(&mut out, self.spec.chmaps);
        push_word(&mut out, self.controls);
        assert(out@ =~= self.counts());
        let room: [u8; 48] = [0;48];
        out.extend_from_slice(&room);
        assert(out@ =~= self.counts() + Seq::new(48, |i: int| 0u8));
        let ghost head = out@;
        push_word(&mut out, self.magic);
        push_word(&mut out, self.version);
        push_word(&mut out, self.outstanding_packets);
        push_word(&mut out, self.period_bytes);
        push_word(&mut out, self.preferred_output_count);
        push_word(&mut out, self.preferred_input_count);
        push_hints(&mut out, &self.preferred_output);
        push_hints(&mut out, &self.preferred_input);
        assert(out@ =~= head + self.hints());
        out
    }

    /// Reads from the configuration space: as much as there is from the offset on; what is asked
    /// past its end is left as it was.
    pub fn read_config(&self, offset: u64, data: &mut [u8])
        ensures
            final(data)@.len() == old(data)@.len(),
            forall|i: int|
                0 <= i < old(data)@.len() ==> #[trigger] final(data)@[i] == if offset + i
                    < DROIDVM_SND_CFG_SIZE {
                    self.encoded()[offset + i]
                } else {
                    old(data)@[i]
                },
    {
        let b = self.as_bytes();
        if offset >= DROIDVM_SND_CFG_SIZE as u64 {
            return;
        }
        let at: usize = offset as usize;
        let rest: usize = DROIDVM_SND_CFG_SIZE - at;
        let n: usize = if data.len() < rest {
            data.len()
        } else {
            rest
        };
        let mut i: usize = 0;
        while i < n
            invariant
                i <= n <= data@.len(),
                n <= rest,
                at + rest == DROIDVM_SND_CFG_SIZE,
                b@.len() == DROIDVM_SND_CFG_SIZE,
                b@ == self.encoded(),
                at == offset,
                data.len() == data@.len(),
                data@.len() == old(data)@.len(),
                forall|k: int|
                    0 <= k < data@.len() ==> #[trigger] data@[k] == if k < i {
                        self.encoded()[offset + k]
                    } else {
                        old(data)@[k]
                    },
            decreases n - i,
        {
            data[i] = b[at + i];
            i = i + 1;
        }
    }
}

/// Adds the bytes of a number.
fn push_word(out: &mut Vec<u8>, v: u32)
    ensures
        final(out)@ == old(out)@ + word(v),
        final(out)@.len() == old(out)@.len() + 4,
{
    let b = bytes::le32_bytes(v);
    out.extend_from_slice(&b);
}

/// Adds the bytes of the hints of a direction.
fn push_hints(out: &mut Vec<u8>, hints: &[DroidVmSndPreferred; 8])
    ensures
        final(out)@ == old(out)@ + hint_bytes(hints@, 8),
        final(out)@.len() == old(out)@.len() + 96,
{
    let mut i: usize = 0;
    assert(out@ =~= old(out)@ + hint_bytes(hints@, 0));
    while i < 8
        invariant
            i <= 8,
            out@ == old(out)@ + hint_bytes(hints@, i as nat),
            out@.len() == old(out)@.len() + 12 * i,
        decreases 8 - i,
    {
        push_word(out, hints[i].rate);
        push_word(out, hints[i].channels);
        push_word(out, hints[i].kind);
        assert(out@ =~= old(out)@ + hint_bytes(hints@, (i + 1) as nat));
        i = i + 1;
    }
}

/// The hints begin where the guest looks for them, with the magic number.
pub proof fn hints_begin_at_their_offset(c: DroidVmSndConfig)
    ensures
        c.encoded().subrange(DROIDVM_SND_CFG_OFFSET as int, DROIDVM_SND_CFG_OFFSET + 4) == word(
            c.magic,
        ),
        c.encoded().take(12) == word(c.spec.jacks) + word(c.spec.streams) + word(c.spec.chmaps),
{
    bytes::be_bytes_len(c.spec.jacks as nat, 4);
    bytes::be_bytes_len(c.spec.streams as nat, 4);
    bytes::be_bytes_len(c.spec.chmaps as nat, 4);
    bytes::be_bytes_len(c.controls as nat, 4);
    bytes::be_bytes_len(c.magic as nat, 4);
    assert(c.encoded().subrange(64, 68) =~= word(c.magic));
    assert(c.encoded().take(12) =~= word(c.spec.jacks) + word(c.spec.streams) + word(
        c.spec.chmaps,
    ));
}

/// An answer of an endpoint that was asked what it runs at.
pub struct Probe {
    pub key: String,
    pub input: bool,
    pub answer: Option<NativeConfig>,
}

/// What the endpoints answered so far.
pub struct ProbeCache {
    pub probes: Vec<Probe>,
}

/// The answer of an endpoint among the first `n`, if it was asked.
pub open spec fn answer_of(probes: Seq<Probe>, n: nat, key: Seq<char>, input: bool) -> Option<
    Option<NativeConfig>,
>
    decreases n,
{
    if n == 0 {
        None
    } else if probes[n - 1].key@ == key && probes[n - 1].input == input {
        Some(probes[n - 1].answer)
    } else {
        answer_of(probes, (n - 1) as nat, key, input)
    }
}

impl ProbeCache {
    /// The answer of an endpoint, if it was asked.
    pub open spec fn known(&self, key: Seq<char>, input: bool) -> Option<Option<NativeConfig>> {
        answer_of(self.probes@, self.probes@.len(), key, input)
    }

    pub fn new() -> (r: Self)
        ensures
            forall|key: Seq<char>, input: bool| r.known(key, input) is None,
    {
        ProbeCache { probes: Vec::new() }
    }

    /// The answer of an endpoint, if it was asked: it is not asked again.
    pub fn probe_once(&self, key: &str, input: bool) -> (r: Option<Option<NativeConfig>>)
        ensures
            r == self.known(key@, input),
    {
        let mut n: usize = self.probes.len();
        while n > 0
            invariant
                n <= self.probes@.len(),
                self.known(key@, input) == answer_of(self.probes@, n as nat, key@, input),
            decreases n,
        {
            n = n - 1;
            if self.probes[n].input == input && bytes::text_equal(
                self.probes[n].key.as_str(),
                key,
            ) {
                return Some(self.probes[n].answer);
            }
        }
        None
    }

    /// Keeps the answer of an endpoint.
    pub fn learn(&mut self, key: &str, input: bool, answer: Option<NativeConfig>)
        ensures
            final(self).known(key@, input) == Some(answer),
            forall|k: Seq<char>, i: bool|
                k != key@ || i != input ==> final(self).known(k, i) == old(self).known(k, i),
    {
        let ghost before = self.probes@;
        self.probes.push(Probe { key: key.to_owned(), input, answer });
        proof {
            assert forall|k: Seq<char>, i: bool| k != key@ || i != input implies self.known(k, i)
                == old(self).known(k, i) by {
                answers_stay(before, self.probes@, before.len(), k, i);
            }
        }
    }
}

/// What comes behind does not change what was answered before.
proof fn answers_stay(a: Seq<Probe>, b: Seq<Probe>, n: nat, key: Seq<char>, input: bool)
    requires
        n <= a.len(),
        n <= b.len(),
        forall|i: int| 0 <= i < n ==> a[i] == b[i],
    ensures
        answer_of(a, n, key, input) == answer_of(b, n, key, input),
    decreases n,
{
    if n > 0 {
        answers_stay(a, b, (n - 1) as nat, key, input);
    }
}

/// Hints that are marked as such begin with the letters DVMS and the number of their layout.
proof fn hints_say_what_they_are(c: DroidVmSndConfig)
    requires
        c.magic == 0x534d_5644,
        c.version == 2,
    ensures
        c.encoded().subrange(64, 72) == seq![0x44u8, 0x56, 0x4d, 0x53, 2, 0, 0, 0],
{
    assert forall|v: nat, n: nat| (#[trigger] bytes::le_bytes(v, n)).len() == n by {
        bytes::be_bytes_len(v, n);
    }
    reveal_with_fuel(bytes::be_bytes, 5);
    assert(word(c.magic) =~= seq![0x44u8, 0x56, 0x4d, 0x53]);
    assert(word(c.version) =~= seq![2u8, 0, 0, 0]);
    assert(c.encoded().subrange(64, 72) =~= word(c.magic) + word(c.version));
}

/// What the table and the endpoint say of an endpoint.
pub open spec fn properties_of(
    has_table: bool,
    table: Option<Endpoint>,
    native: Option<NativeConfig>,
) -> Endpoint {
    if !has_table {
        Endpoint { rate: 0, channels: 0, kind: 0 }
    } else {
        let stated = match table {
            Some(t) => t,
            None => Endpoint { rate: 0, channels: 0, kind: 0 },
        };
        match native {
            Some(n) => Endpoint {
                rate: n.frame_rate,
                channels: n.num_channels,
                kind: stated.kind,
            },
            None => stated,
        }
    }
}

/// What kind of thing an endpoint is, only the table says; what it runs at the endpoint says itself,
/// and the table where it does not. Without a table nothing is known.
pub proof fn endpoints_know_what_they_run_at(
    has_table: bool,
    table: Option<Endpoint>,
    native: Option<NativeConfig>,
)
    ensures
        ({
            let e = properties_of(has_table, table, native);
            let other = properties_of(has_table, table, None);
            &&& !has_table ==> e.rate == 0 && e.channels == 0 && e.kind == 0
            &&& e.kind == other.kind
            &&& has_table && native is Some ==> e.rate == native->0.frame_rate && e.channels
                == native->0.num_channels
            &&& has_table && native is None && table is Some ==> Some(e) == table
            &&& table is None ==> e.kind == 0
            &&& has_table && table is Some ==> e.kind == table->0.kind
        }),
{
}

/// What a configuration states of a device is the hint, each thing for itself; what it leaves open is
/// what was found of the endpoint that it names, and zero where it names none.
pub proof fn configured_hints_win(dev: PCMDeviceParameters, found: Endpoint)
    ensures
        ({
            let h = hint_of(dev, found);
            let named = dev.host_device is Some;
            &&& dev.preferred_rate is Some ==> Some(h.rate) == dev.preferred_rate
            &&& dev.preferred_channels is Some ==> h.channels == dev.preferred_channels->0
            &&& dev.endpoint_kind is Some ==> Some(h.kind) == dev.endpoint_kind
            &&& dev.preferred_rate is None ==> h.rate == if named {
                found.rate
            } else {
                0
            }
            &&& dev.preferred_channels is None ==> h.channels == if named {
                found.channels as u32
            } else {
                0
            }
            &&& dev.endpoint_kind is None ==> h.kind == if named {
                found.kind
            } else {
                0
            }
        }),
{
}

/// An endpoint is looked up exactly where what is found can make a difference to the hint.
pub proof fn what_matters_is_looked_up(dev: PCMDeviceParameters)
    ensures
        is_looked_up(dev) <==> exists|a: Endpoint, b: Endpoint|
            hint_of(dev, a) != #[trigger] hint_of(dev, b) && #[trigger] hint_of(dev, a) != hint_of(
                dev,
                b,
            ),
{
    let a = Endpoint { rate: 0, channels: 0, kind: 0 };
    let b = Endpoint { rate: 1, channels: 1, kind: 1 };
    let x = hint_of(dev, a);
    let y = hint_of(dev, b);
    if is_looked_up(dev) {
        assert(x != y);
    }
}

/// The guest knows the kinds by their places in this row.
pub proof fn kinds_are_numbered(k: DroidVmSndEndpointKind)
    ensures
        k.number() < 8,
        seq![
            DroidVmSndEndpointKind::Unknown,
            DroidVmSndEndpointKind::Speaker,
            DroidVmSndEndpointKind::Headphones,
            DroidVmSndEndpointKind::Headset,
            DroidVmSndEndpointKind::LineOut,
            DroidVmSndEndpointKind::Digital,
            DroidVmSndEndpointKind::Microphone,
            DroidVmSndEndpointKind::Telephony,
        ][k.number() as int] == k,
{
}

/// There are hints for the first eight devices of a direction, and for every device where there are
/// no more.
pub proof fn eight_devices_have_hints(
    hints: [DroidVmSndPreferred; 8],
    count: u32,
    devices: Seq<PCMDeviceParameters>,
    found: Seq<Endpoint>,
    i: int,
)
    requires
        is_hints(hints, count, devices, found),
        0 <= i < 8,
    ensures
        count <= 8,
        count <= devices.len(),
        count == 8 || count == devices.len(),
        i < count ==> hints[i] == hint_of(devices[i], found[i]),
        i >= count ==> hints[i].rate == 0 && hints[i].channels == 0 && hints[i].kind == 0,
{
    let h = hints[i];
}

/// So many hints are twelve bytes each.
proof fn hints_are_twelve_bytes(hints: Seq<DroidVmSndPreferred>, n: nat, i: int)
    requires
        0 <= i < n,
    ensures
        hint_bytes(hints, n).len() == 12 * n,
        hint_bytes(hints, n).subrange(12 * i, 12 * i + 12) == word(hints[i].rate) + word(
            hints[i].channels,
        ) + word(hints[i].kind),
    decreases n,
{
    bytes::be_bytes_len(hints[n - 1].rate as nat, 4);
    bytes::be_bytes_len(hints[n - 1].channels as nat, 4);
    bytes::be_bytes_len(hints[n - 1].kind as nat, 4);
    let m = (n - 1) as nat;
    let b = hint_bytes(hints, n);
    if n > 1 {
        hints_are_twelve_bytes(hints, m, 0);
    } else {
        assert(hint_bytes(hints, 0).len() == 0);
    }
    assert(hint_bytes(hints, m).len() == 12 * m);
    assert(b == hint_bytes(hints, m) + word(hints[n - 1].rate) + word(hints[n - 1].channels) + word(
        hints[n - 1].kind,
    ));
    if i < m {
        hints_are_twelve_bytes(hints, m, i);
        assert(b.subrange(12 * i, 12 * i + 12) =~= hint_bytes(hints, m).subrange(
            12 * i,
            12 * i + 12,
        ));
    } else {
        assert(b.subrange(12 * i, 12 * i + 12) =~= word(hints[i].rate) + word(hints[i].channels)
            + word(hints[i].kind));
    }
}

/// The number in four bytes, low byte first.
pub open spec fn number_at(s: Seq<u8>, at: int) -> int {
    s[at] + s[at + 1] * 0x100 + s[at + 2] * 0x1_0000 + s[at + 3] * 0x100_0000
}

/// A word is read back where it stands.
proof fn words_read_back(s: Seq<u8>, at: int, v: u32)
    requires
        0 <= at,
        at + 4 <= s.len(),
        s.subrange(at, at + 4) == word(v),
    ensures
        number_at(s, at) == v,
{
    bytes::byte_pow_values();
    bytes::le_round_trip(v as nat, 4);
    let w = s.subrange(at, at + 4);
    bytes::be_value_4(w.reverse());
    assert(w[0] == s[at] && w[1] == s[at + 1] && w[2] == s[at + 2] && w[3] == s[at + 3]);
}

/// Where the guest finds each thing in the configuration space: the counts at its start, and at 64 the
/// hints, twelve bytes for each device, those of playback at 88 and those of capture at 184.
pub proof fn the_guest_finds_everything(c: DroidVmSndConfig, i: int)
    requires
        0 <= i < 8,
    ensures
        ({
            let s = c.encoded();
            &&& s.len() == 280
            &&& number_at(s, 0) == c.spec.jacks
            &&& number_at(s, 4) == c.spec.streams
            &&& number_at(s, 8) == c.spec.chmaps
            &&& number_at(s, 12) == c.controls
            &&& forall|k: int| 16 <= k < 64 ==> s[k] == 0
            &&& number_at(s, 64) == c.magic
            &&& number_at(s, 68) == c.version
            &&& number_at(s, 72) == c.outstanding_packets
            &&& number_at(s, 76) == c.period_bytes
            &&& number_at(s, 80) == c.preferred_output_count
            &&& number_at(s, 84) == c.preferred_input_count
            &&& number_at(s, 88 + 12 * i) == c.preferred_output[i].rate
            &&& number_at(s, 92 + 12 * i) == c.preferred_output[i].channels
            &&& number_at(s, 96 + 12 * i) == c.preferred_output[i].kind
            &&& number_at(s, 184 + 12 * i) == c.preferred_input[i].rate
            &&& number_at(s, 188 + 12 * i) == c.preferred_input[i].channels
            &&& number_at(s, 192 + 12 * i) == c.preferred_input[i].kind
        }),
{
    let s = c.encoded();
    assert forall|v: u32| (#[trigger] word(v)).len() == 4 by {
        bytes::be_bytes_len(v as nat, 4);
    }
    let o = c.preferred_output@;
    let p = c.preferred_input@;
    hints_are_twelve_bytes(o, 8, i);
    hints_are_twelve_bytes(p, 8, i);
    assert(s.subrange(0, 4) =~= word(c.spec.jacks));
    words_read_back(s, 0, c.spec.jacks);
    assert(s.subrange(4, 8) =~= word(c.spec.streams));
    words_read_back(s, 4, c.spec.streams);
    assert(s.subrange(8, 12) =~= word(c.spec.chmaps));
    words_read_back(s, 8, c.spec.chmaps);
    assert(s.subrange(12, 16) =~= word(c.controls));
    words_read_back(s, 12, c.controls);
    assert(s.subrange(64, 68) =~= word(c.magic));
    words_read_back(s, 64, c.magic);
    assert(s.subrange(68, 72) =~= word(c.version));
    words_read_back(s, 68, c.version);
    assert(s.subrange(72, 76) =~= word(c.outstanding_packets));
    words_read_back(s, 72, c.outstanding_packets);
    assert(s.subrange(76, 80) =~= word(c.period_bytes));
    words_read_back(s, 76, c.period_bytes);
    assert(s.subrange(80, 84) =~= word(c.preferred_output_count));
    words_read_back(s, 80, c.preferred_output_count);
    assert(s.subrange(84, 88) =~= word(c.preferred_input_count));
    words_read_back(s, 84, c.preferred_input_count);
    let a = 88 + 12 * i;
    let b = 184 + 12 * i;
    let x = hint_bytes(o, 8).subrange(12 * i, 12 * i + 12);
    let y = hint_bytes(p, 8).subrange(12 * i, 12 * i + 12);
    assert(s.subrange(a, a + 12) =~= x);
    assert(s.subrange(b, b + 12) =~= y);
    a_hint_reads_back(s, a, o[i]);
    a_hint_reads_back(s, b, p[i]);
}

/// A hint is read back where it stands.
proof fn a_hint_reads_back(s: Seq<u8>, at: int, h: DroidVmSndPreferred)
    requires
        0 <= at,
        at + 12 <= s.len(),
        s.subrange(at, at + 12) == word(h.rate) + word(h.channels) + word(h.kind),
    ensures
        number_at(s, at) == h.rate,
        number_at(s, at + 4) == h.channels,
        number_at(s, at + 8) == h.kind,
{
    let w = s.subrange(at, at + 12);
    bytes::be_bytes_len(h.rate as nat, 4);
    bytes::be_bytes_len(h.channels as nat, 4);
    bytes::be_bytes_len(h.kind as nat, 4);
    assert(s.subrange(at, at + 4) =~= w.subrange(0, 4));
    assert(w.subrange(0, 4) =~= word(h.rate));
    assert(s.subrange(at + 4, at + 8) =~= w.subrange(4, 8));
    assert(w.subrange(4, 8) =~= word(h.channels));
    assert(s.subrange(at + 8, at + 12) =~= w.subrange(8, 12));
    assert(w.subrange(8, 12) =~= word(h.kind));
    words_read_back(s, at, h.rate);
    words_read_back(s, at + 4, h.channels);
    words_read_back(s, at + 8, h.kind);
}

} // verus!
