//! A virtual sound device: its parameters, what it tells the guest of itself, and how its streams
//! are restored, reset and concealed.

use vstd::prelude::*;

pub mod config;
pub mod data;
pub mod device;
pub mod parameters;
pub mod sys;
pub mod underrun;
pub mod worker;

verus! {

pub const VIRTIO_SND_D_OUTPUT: u8 = 0;

pub const VIRTIO_SND_D_INPUT: u8 = 1;

/// What was last asked of a stream.
pub const VIRTIO_SND_R_PCM_PREPARE: u32 = 0x0102;

pub const VIRTIO_SND_R_PCM_START: u32 = 0x0104;

pub const VIRTIO_SND_R_PCM_STOP: u32 = 0x0105;

/// What a device says of one of its streams.
#[derive(Clone, Copy, Debug, PartialEq, Eq, Structural)]
pub struct PcmInfo {
    /// The number of the device, among those of its direction.
    pub hda_fn_nid: u32,
    pub features: u32,
    pub formats: u64,
    pub rates: u64,
    pub direction: u8,
    pub channels_min: u8,
    pub channels_max: u8,
}

} // verus!
