//! The figures of guests and of the host, and the order in which guests are listed.

use vstd::prelude::*;
use crate::counters::IoCounters;
use crate::float;
use crate::float::Float;
use crate::single::F32;
use crate::sort;
use crate::sort::{Ranked, Sortable};

verus! {

// ---------------------------------------------------------------------------
// Samples

/// The counters of a process at an earlier time, from which throughput is computed.
#[derive(Debug, Clone, Copy, PartialEq, Eq, Structural)]
pub struct PrevSample {
    pub counters: IoCounters,
    /// When the counters were read, in nanoseconds.
    pub at: u64,
}

/// The time in nanoseconds that a vCPU thread had waited for a CPU at an earlier time.
#[derive(Debug, Clone, Copy, PartialEq, Eq, Structural)]
pub struct ThreadPrevSample {
    pub wait_ns: u64,
    /// When the waiting time was read, in nanoseconds.
    pub at: u64,
}

// ---------------------------------------------------------------------------
// Host

/// The load and the memory of the host.
#[derive(Debug, Clone, Copy, PartialEq, Eq, Structural)]
pub struct HostStats {
    /// The mean load of all CPUs in percent.
    pub cpu_pct: F32,
    pub mem_used_mb: u64,
    pub mem_total_mb: u64,
}

impl Default for HostStats {
    fn default() -> (r: Self)
        ensures
            r == (HostStats { cpu_pct: F32 { bits: 0 }, mem_used_mb: 0, mem_total_mb: 0 }),
    {
        HostStats { cpu_pct: F32::zero(), mem_used_mb: 0, mem_total_mb: 0 }
    }
}

// ---------------------------------------------------------------------------
// Guests

/// The figures of one guest.
#[derive(Debug, Clone)]
pub struct VmStats {
    pub pid: u32,
    pub name: String,
    /// The load in percent of one CPU, summed over the vCPUs: it may exceed 100.
    pub cpu_pct: F32,
    /// Resident memory in MB.
    pub mem_mb: u64,
    /// Throughput in bytes per second.
    pub disk_read_bps: u64,
    pub disk_write_bps: u64,
    pub net_rx_bps: u64,
    pub net_tx_bps: u64,
}

/// The figures of one guest as a mathematical value.
#[verifier::ext_equal]
pub ghost struct Guest {
    pub pid: u32,
    pub name: Seq<char>,
    pub cpu_pct: F32,
    pub mem_mb: u64,
    pub disk_read_bps: u64,
    pub disk_write_bps: u64,
    pub net_rx_bps: u64,
    pub net_tx_bps: u64,
}

impl View for VmStats {
    type V = Guest;

    open spec fn view(&self) -> Guest {
        Guest {
            pid: self.pid,
            name: self.name@,
            cpu_pct: self.cpu_pct,
            mem_mb: self.mem_mb,
            disk_read_bps: self.disk_read_bps,
            disk_write_bps: self.disk_write_bps,
            net_rx_bps: self.net_rx_bps,
            net_tx_bps: self.net_tx_bps,
        }
    }
}

/// What guests are sorted by.
#[derive(Debug, Clone, Copy, PartialEq, Eq, Structural)]
pub enum SortBy {
    Cpu,
    DiskIo,
    NetIo,
    Memory,
}

impl SortBy {
    /// The name of the order.
    pub open spec fn name(self) -> Seq<char> {
        match self {
            SortBy::Cpu => "CPU"@,
            SortBy::DiskIo => "disk I/O"@,
            SortBy::NetIo => "net I/O"@,
            SortBy::Memory => "memory"@,
        }
    }

    /// The name of the order, for the title of the table.
    pub fn label(self) -> (r: &'static str)
        ensures
            r@ == self.name(),
    {
        match self {
            SortBy::Cpu => "CPU",
            SortBy::DiskIo => "disk I/O",
            SortBy::NetIo => "net I/O",
            SortBy::Memory => "memory",
        }
    }
}

impl Ranked<SortBy> for Guest {
    open spec fn rank(self, by: SortBy) -> int {
        match by {
            SortBy::Cpu => self.cpu_pct.rank(),
            SortBy::DiskIo => self.disk_read_bps + self.disk_write_bps,
            SortBy::NetIo => self.net_rx_bps + self.net_tx_bps,
            SortBy::Memory => self.mem_mb as int,
        }
    }
}

impl Sortable<SortBy> for VmStats {
    fn rank_of(&self, by: SortBy) -> (r: i128) {
        match by {
            SortBy::Cpu => self.cpu_pct.order() as i128,
            SortBy::DiskIo => self.disk_read_bps as i128 + self.disk_write_bps as i128,
            SortBy::NetIo => self.net_rx_bps as i128 + self.net_tx_bps as i128,
            SortBy::Memory => self.mem_mb as i128,
        }
    }
}

/// Sorts guests in descending order: by CPU load, by the sum of reading and writing, by the sum of
/// receiving and transmitting, or by memory. Guests that are equal in this keep their order.
pub fn sort_vms(vms: &mut Vec<VmStats>, by: SortBy)
    ensures
        sort::views(final(vms)@) == sort::sorted(sort::views(old(vms)@), by),
        sort::is_sort_of(sort::views(final(vms)@), sort::views(old(vms)@), by),
        final(vms)@.len() == old(vms)@.len(),
{
    sort::sort_descending(vms, by);
}

// ---------------------------------------------------------------------------
// Detail of one guest

/// A vCPU thread of a guest: the physical CPU that it runs on, the NUMA node of this CPU, and how
/// long it waits for the host.
#[derive(Debug, Clone, Copy, PartialEq, Eq, Structural)]
pub struct VCpuThread {
    pub tid: u32,
    pub vcpu_index: u32,
    pub cur_cpu: u32,
    pub numa_node: Option<u32>,
    /// The share of time that the thread waits, in percent.
    pub wait_pct: Float,
}

/// A vCPU thread of a guest as a mathematical value.
pub ghost struct VCpu {
    pub tid: u32,
    pub vcpu_index: u32,
    pub cur_cpu: u32,
    pub numa_node: Option<u32>,
    pub wait_pct: float::Dyadic,
}

impl View for VCpuThread {
    type V = VCpu;

    open spec fn view(&self) -> VCpu {
        VCpu {
            tid: self.tid,
            vcpu_index: self.vcpu_index,
            cur_cpu: self.cur_cpu,
            numa_node: self.numa_node,
            wait_pct: self.wait_pct@,
        }
    }
}

/// The order of vCPU threads by their index.
#[derive(Debug, Clone, Copy)]
pub struct ByIndex;

impl Ranked<ByIndex> for VCpu {
    open spec fn rank(self, by: ByIndex) -> int {
        -(self.vcpu_index as int)
    }
}

impl Sortable<ByIndex> for VCpuThread {
    fn rank_of(&self, by: ByIndex) -> (r: i128) {
        -(self.vcpu_index as i128)
    }
}

/// The detail of one guest.
#[derive(Debug, Clone)]
pub struct VmDetail {
    /// The vCPU threads, by ascending index.
    pub vcpus: Vec<VCpuThread>,
    /// NUMA nodes in ascending order, each with its share of the guest's pages in percent.
    pub mem_by_node: Vec<(u32, Float)>,
    /// Whether the placement of the memory may not be read.
    pub denied: bool,
}

/// The detail of one guest as a mathematical value.
#[verifier::ext_equal]
pub ghost struct Detail {
    pub vcpus: Seq<VCpu>,
    pub mem_by_node: Seq<(u32, float::Dyadic)>,
    pub denied: bool,
}

/// The views of nodes with their shares.
pub open spec fn shares(s: Seq<(u32, Float)>) -> Seq<(u32, float::Dyadic)> {
    s.map_values(|x: (u32, Float)| (x.0, x.1@))
}

impl View for VmDetail {
    type V = Detail;

    open spec fn view(&self) -> Detail {
        Detail {
            vcpus: sort::views(self.vcpus@),
            mem_by_node: shares(self.mem_by_node@),
            denied: self.denied,
        }
    }
}

// ---------------------------------------------------------------------------
// Laws

/// The figures of a guest as a mathematical value are its figures, each under its own name.
pub proof fn law_view_keeps_the_figures(vm: VmStats, v: VCpuThread)
    ensures
        vm@.pid == vm.pid && vm@.name == vm.name@ && vm@.cpu_pct == vm.cpu_pct && vm@.mem_mb
            == vm.mem_mb,
        vm@.disk_read_bps == vm.disk_read_bps && vm@.disk_write_bps == vm.disk_write_bps,
        vm@.net_rx_bps == vm.net_rx_bps && vm@.net_tx_bps == vm.net_tx_bps,
        v@.tid == v.tid && v@.vcpu_index == v.vcpu_index && v@.cur_cpu == v.cur_cpu && v@.numa_node
            == v.numa_node && v@.wait_pct == v.wait_pct@,
{
}

} // verus!
