//! The sound device: what it is made with, what the guest agrees on, and what is saved of it.

use crate::snd::config::{self, DroidVmSndConfig, Lookups};
use crate::snd::data::{self, NativeConfig, SndData};
use crate::snd::parameters::{self, Parameters};
use vstd::prelude::*;

verus! {

/// Queues: control, event, playback and capture.
pub const MAX_QUEUE_NUM: usize = 4;

pub const MAX_VRING_LEN: u16 = 1024;

/// What is saved of a device.
pub struct VirtioSndSnapshot {
    pub avail_features: u64,
    pub acked_features: u64,
    pub queue_sizes: Vec<u16>,
    /// What was last asked of each stream.
    pub streams_state: Option<Vec<u32>>,
    pub snd_data: SndData,
}

/// Why a device cannot be restored from what was saved.
#[derive(Clone, Copy, Debug, PartialEq, Eq, Structural)]
pub enum RestoreError {
    /// Other features were offered.
    AvailFeatures,
    /// The queues had other sizes.
    QueueSizes,
    /// The guest was told other things.
    SndData,
}

/// A sound device.
pub struct VirtioSnd {
    pub cfg: DroidVmSndConfig,
    pub snd_data: SndData,
    pub avail_features: u64,
    pub acked_features: u64,
    pub queue_sizes: Vec<u16>,
    pub streams_state: Option<Vec<u32>>,
    pub card_index: usize,
}

/// What the host's endpoints are and run at, for each device.
pub struct HostEndpoints {
    pub outputs: Vec<Option<NativeConfig>>,
    pub inputs: Vec<Option<NativeConfig>>,
    pub found: Lookups,
}

impl HostEndpoints {
    /// There is an answer for each device.
    pub open spec fn fits(&self, params: &Parameters) -> bool {
        &&& self.outputs@.len() == params.num_output_devices
        &&& self.inputs@.len() == params.num_input_devices
        &&& self.found.outputs@.len() == params.num_output_devices
        &&& self.found.inputs@.len() == params.num_input_devices
    }

    /// Nothing is known of any endpoint.
    pub fn unknown(params: &Parameters) -> (r: Self)
        ensures
            r.fits(params),
            forall|i: int| 0 <= i < r.outputs@.len() ==> r.outputs@[i] is None,
            forall|i: int| 0 <= i < r.inputs@.len() ==> r.inputs@[i] is None,
            forall|i: int|
                0 <= i < r.found.outputs@.len() ==> r.found.outputs@[i] == (config::Endpoint {
                    rate: 0,
                    channels: 0,
                    kind: 0,
                }),
            forall|i: int|
                0 <= i < r.found.inputs@.len() ==> r.found.inputs@[i] == (config::Endpoint {
                    rate: 0,
                    channels: 0,
                    kind: 0,
                }),
    {
        let nothing = config::Endpoint { rate: 0, channels: 0, kind: 0 };
        let mut outputs: Vec<Option<NativeConfig>> = Vec::new();
        let mut found_outputs: Vec<config::Endpoint> = Vec::new();
        let mut i: u32 = 0;
        while i < params.num_output_devices
            invariant
                i <= params.num_output_devices,
                outputs@.len() == i,
                found_outputs@.len() == i,
                forall|k: int| 0 <= k < i ==> outputs@[k] is None,
                forall|k: int| 0 <= k < i ==> found_outputs@[k] == nothing,
            decreases params.num_output_devices - i,
        {
            outputs.push(None);
            found_outputs.push(nothing);
            i = i + 1;
        }
        let mut inputs: Vec<Option<NativeConfig>> = Vec::new();
        let mut found_inputs: Vec<config::Endpoint> = Vec::new();
        let mut j: u32 = 0;
        while j < params.num_input_devices
            invariant
                j <= params.num_input_devices,
                inputs@.len() == j,
                found_inputs@.len() == j,
                forall|k: int| 0 <= k < j ==> inputs@[k] is None,
                forall|k: int| 0 <= k < j ==> found_inputs@[k] == nothing,
            decreases params.num_input_devices - j,
        {
            inputs.push(None);
            found_inputs.push(nothing);
            j = j + 1;
        }
        HostEndpoints {
            outputs,
            inputs,
            found: Lookups { outputs: found_outputs, inputs: found_inputs },
        }
    }
}

impl VirtioSnd {
    /// The device that the parameters describe: its configuration declares as many channel maps as
    /// the guest can ask for.
    pub fn new(base_features: u64, params: Parameters, hosts: &HostEndpoints) -> (r: VirtioSnd)
        requires
            params.countable(),
            hosts.fits(&params),
        ensures
            r.avail_features == base_features,
            r.acked_features == 0,
            r.card_index == params.card_index,
            r.streams_state is None,
            r.queue_sizes@ == seq![MAX_VRING_LEN, MAX_VRING_LEN, MAX_VRING_LEN, MAX_VRING_LEN],
            r.queue_sizes@.len() == MAX_QUEUE_NUM,
            r.queue_sizes@ == Seq::new(4, |i: int| 1024u16),
            r.snd_data.jack_info@.len() == 0,
            r.snd_data.pcm_info@ == data::streams_of(
                hosts.outputs@,
                data::FALLBACK_OUTPUT_CHANNELS,
                params.num_output_streams,
                crate::snd::VIRTIO_SND_D_OUTPUT,
            ) + data::streams_of(
                hosts.inputs@,
                data::FALLBACK_INPUT_CHANNELS,
                params.num_input_streams,
                crate::snd::VIRTIO_SND_D_INPUT,
            ),
            r.snd_data.chmaps() == data::all_maps(hosts.outputs@, hosts.inputs@),
            r.cfg.spec.jacks == 0,
            r.cfg.spec.streams == params.total_output_streams() + params.total_input_streams(),
            r.cfg.spec.chmaps == r.snd_data.chmap_info.len() as u32,
            r.cfg.controls == 0,
            r.cfg.magic == config::DROIDVM_SND_CFG_MAGIC,
            r.cfg.version == config::DROIDVM_SND_CFG_VERSION,
            r.cfg.outstanding_packets == params.guest_outstanding_packets,
            r.cfg.period_bytes == params.guest_period_bytes,
            exists|outputs: Seq<parameters::PCMDeviceParameters>|
                {
                    &&& parameters::is_resized(
                        params.output_device_config@,
                        outputs,
                        params.num_output_devices as nat,
                    )
                    &&& #[trigger] config::is_hints(
                        r.cfg.preferred_output,
                        r.cfg.preferred_output_count,
                        outputs,
                        hosts.found.outputs@,
                    )
                },
            exists|inputs: Seq<parameters::PCMDeviceParameters>|
                {
                    &&& parameters::is_resized(
                        params.input_device_config@,
                        inputs,
                        params.num_input_devices as nat,
                    )
                    &&& #[trigger] config::is_hints(
                        r.cfg.preferred_input,
                        r.cfg.preferred_input_count,
                        inputs,
                        hosts.found.inputs@,
                    )
                },
    {
        let params = parameters::resize_parameters_pcm_device_config(params);
        let snd_data = data::hardcoded_snd_data(
            &params,
            hosts.outputs.as_slice(),
            hosts.inputs.as_slice(),
        );
        let cfg = config::droidvm_snd_config(&params, &snd_data, &hosts.found);
        let queue_sizes: Vec<u16> = vec![MAX_VRING_LEN, MAX_VRING_LEN, MAX_VRING_LEN, MAX_VRING_LEN];
        assert(queue_sizes@ =~= Seq::new(4, |i: int| 1024u16));
        VirtioSnd {
            cfg,
            snd_data,
            avail_features: base_features,
            acked_features: 0,
            queue_sizes,
            streams_state: None,
            card_index: params.card_index,
        }
    }

    /// The guest agrees on features: those that were not offered do not count.
    pub fn ack_features(&mut self, v: u64)
        ensures
            final(self).acked_features == old(self).acked_features | (v & old(
                self,
            ).avail_features),
            final(self).acked_features == with_acked(
                old(self).avail_features,
                old(self).acked_features,
                v,
            ),
            final(self).avail_features == old(self).avail_features,
            final(self).cfg == old(self).cfg,
            final(self).snd_data == old(self).snd_data,
            final(self).queue_sizes == old(self).queue_sizes,
            final(self).streams_state == old(self).streams_state,
            final(self).card_index == old(self).card_index,
    {
        self.acked_features = self.acked_features | (v & self.avail_features);
    }

    /// Whether the device can be activated with so many queues.
    pub fn activate(&self, queues: usize) -> (r: bool)
        ensures
            r == (queues == self.queue_sizes@.len()),
    {
        queues == self.queue_sizes.len()
    }

    /// What is saved of the device.
    pub fn virtio_snapshot(&self) -> (r: VirtioSndSnapshot)
        ensures
            r.avail_features == self.avail_features,
            r.acked_features == self.acked_features,
            r.queue_sizes@ == self.queue_sizes@,
            r.snd_data.says_the_same(&self.snd_data),
            match self.streams_state {
                Some(s) => r.streams_state matches Some(t) && t@ == s@,
                None => r.streams_state is None,
            },
    {
        let streams_state: Option<Vec<u32>> = match &self.streams_state {
            Some(s) => {
                let t = s.clone();
                assert(t@ =~= s@);
                Some(t)
            },
            None => None,
        };
        let queue_sizes = self.queue_sizes.clone();
        assert(queue_sizes@ =~= self.queue_sizes@);
        VirtioSndSnapshot {
            avail_features: self.avail_features,
            acked_features: self.acked_features,
            queue_sizes,
            streams_state,
            snd_data: self.snd_data.clone(),
        }
    }

    /// Why the device cannot be restored.
    pub open spec fn refusal(&self, saved: &VirtioSndSnapshot) -> Option<RestoreError> {
        if saved.avail_features != self.avail_features {
            Some(RestoreError::AvailFeatures)
        } else if saved.queue_sizes@ != self.queue_sizes@ {
            Some(RestoreError::QueueSizes)
        } else if !saved.snd_data.says_the_same(&self.snd_data) {
            Some(RestoreError::SndData)
        } else {
            None
        }
    }

    /// Restores the device from what was saved. Where only what the guest was told differs, the
    /// features that it agreed on are restored all the same.
    pub fn virtio_restore(&mut self, saved: VirtioSndSnapshot) -> (r: Result<(), RestoreError>)
        ensures
            r == (match old(self).refusal(&saved) {
                Some(e) => Err(e),
                None => Ok(()),
            }),
            final(self).acked_features == (match old(self).refusal(&saved) {
                Some(RestoreError::AvailFeatures) | Some(RestoreError::QueueSizes) => old(
                    self,
                ).acked_features,
                _ => saved.acked_features,
            }),
            final(self).streams_state == (if r is Ok {
                saved.streams_state
            } else {
                old(self).streams_state
            }),
            final(self).avail_features == old(self).avail_features,
            final(self).cfg == old(self).cfg,
            final(self).snd_data == old(self).snd_data,
            final(self).queue_sizes == old(self).queue_sizes,
            final(self).card_index == old(self).card_index,
    {
        if saved.avail_features != self.avail_features {
            return Err(RestoreError::AvailFeatures);
        }
        if saved.queue_sizes.len() != self.queue_sizes.len() {
            return Err(RestoreError::QueueSizes);
        }
        let mut i: usize = 0;
        while i < saved.queue_sizes.len()
            invariant
                i <= saved.queue_sizes@.len() == self.queue_sizes@.len(),
                *self == *old(self),
                saved.avail_features == self.avail_features,
                forall|k: int| 0 <= k < i ==> saved.queue_sizes@[k] == self.queue_sizes@[k],
            decreases saved.queue_sizes.len() - i,
        {
            if saved.queue_sizes[i] != self.queue_sizes[i] {
                return Err(RestoreError::QueueSizes);
            }
            i = i + 1;
        }
        assert(saved.queue_sizes@ =~= self.queue_sizes@);
        self.acked_features = saved.acked_features;
        if !saved.snd_data.equals(&self.snd_data) {
            return Err(RestoreError::SndData);
        }
        self.streams_state = saved.streams_state;
        Ok(())
    }
}

/// A device that is made alike can be restored from what was saved of another.
pub proof fn what_was_saved_can_be_restored(
    saved_of: VirtioSnd,
    other: VirtioSnd,
    saved: VirtioSndSnapshot,
)
    requires
        saved.avail_features == saved_of.avail_features,
        saved.queue_sizes@ == saved_of.queue_sizes@,
        saved.snd_data.says_the_same(&saved_of.snd_data),
        other.avail_features == saved_of.avail_features,
        other.queue_sizes@ == saved_of.queue_sizes@,
        other.snd_data.says_the_same(&saved_of.snd_data),
    ensures
        other.refusal(&saved) is None,
{
}

/// The guest never has features that were not offered.
pub proof fn acked_features_were_offered(avail: u64, acked: u64, v: u64)
    requires
        acked & !avail == 0,
    ensures
        (acked | (v & avail)) & !avail == 0,
        with_acked(avail, acked, v) & !avail == 0,
        with_acked(avail, acked, v) & acked == acked,
        with_acked(avail, acked, v) & (v & avail) == v & avail,
        with_acked(avail, acked, v) & !(acked | v) == 0,
{
    let w = with_acked(avail, acked, v);
    assert(w & !avail == 0 && w & acked == acked && w & (v & avail) == v & avail && w & !(acked | v)
        == 0) by (bit_vector)
        requires
            acked & !avail == 0,
            w == acked | (v & avail),
    ;
}

/// What the guest agreed on, once it agreed on some more.
pub open spec fn with_acked(avail: u64, acked: u64, v: u64) -> u64 {
    acked | (v & avail)
}

/// A device is restored exactly where it offers the same features, has queues of the same sizes and
/// tells the guest the same; otherwise the first of these that differs is the reason.
pub proof fn only_alike_devices_are_restored(d: VirtioSnd, saved: VirtioSndSnapshot)
    ensures
        ({
            let features = saved.avail_features == d.avail_features;
            let queues = saved.queue_sizes@ == d.queue_sizes@;
            let told = saved.snd_data.says_the_same(&d.snd_data);
            &&& d.refusal(&saved) is None <==> features && queues && told
            &&& d.refusal(&saved) == Some(RestoreError::AvailFeatures) <==> !features
            &&& d.refusal(&saved) == Some(RestoreError::QueueSizes) <==> features && !queues
            &&& d.refusal(&saved) == Some(RestoreError::SndData) <==> features && queues && !told
        }),
{
}

} // verus!
