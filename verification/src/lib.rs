//! The logic of a KVM/QEMU hypervisor monitor.

pub mod counters;
pub mod double;
pub mod figures;
pub mod float;
pub mod libvirt;
pub mod model;
pub mod monitor;
pub mod panes;
pub mod placement;
pub mod qemu;
pub mod rates;
pub mod samples;
pub mod screen;
pub mod single;
pub mod sort;
pub mod state;
pub mod text;
pub mod threads;
pub mod topology;
