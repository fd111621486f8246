//! Core logic of a virtual machine host.

pub mod android;
pub mod bytes;
pub mod display;
pub mod display_color;
pub mod event_device;
pub mod fdt;
pub mod fdt_laws;
pub mod qcow;
pub mod rm;
pub mod scanout;
pub mod shared_allocation;
pub mod shim;
pub mod snd;
pub mod vnc;
