//! The state of the monitor and how readings and keys change it.

use std::collections::HashMap;
use vstd::prelude::*;
use crate::counters;
use crate::counters::IoCounters;
use crate::figures;
use crate::float;
use crate::float::Float;
use crate::libvirt;
use crate::libvirt::{DomainFeed, DomainState, Poll};
use crate::model;
use crate::model::{ByIndex, HostStats, PrevSample, SortBy, ThreadPrevSample, VCpuThread, VmDetail, VmStats};
use crate::placement;
use crate::qemu;
use crate::qemu::FdReading;
use crate::rates;
use crate::samples;
use crate::samples::ThreadSamples;
use crate::single;
use crate::single::F32;
use crate::sort;
use crate::sort::Ranked;
use crate::state::{GuestState, ProcStatus};
use crate::text;
use crate::threads;
use crate::topology;

verus! {

// ---------------------------------------------------------------------------
// Readings

/// A process, as far as it could be read.
pub struct ProcessReading {
    pub pid: u32,
    pub name: String,
    pub exe: Option<String>,
    pub args: Vec<String>,
    /// The load in percent of one CPU.
    pub cpu: F32,
    /// Resident memory in bytes.
    pub memory: u64,
    pub status: ProcStatus,
    /// The time that the process has been running, in seconds.
    pub run_time: u64,
    /// The content of `/proc/[pid]/io`.
    pub io: Option<String>,
    /// The content of `/proc/[pid]/net/dev`.
    pub net_dev: Option<String>,
    /// The open file descriptors.
    pub fds: Vec<FdReading>,
}

/// The load and the memory of the host, as they were read.
pub struct HostReading {
    /// The load of each CPU in percent.
    pub cpus: Vec<F32>,
    /// Used memory in bytes.
    pub used: u64,
    /// All memory in bytes.
    pub total: u64,
}

/// How long a guest has been running, and the state of its process.
#[derive(Debug, Clone, Copy, PartialEq, Eq, Structural)]
pub struct GuestLife {
    pub state: GuestState,
    pub uptime_secs: u64,
}

impl ProcessReading {
    /// Whether the process runs a guest.
    pub open spec fn is_guest(self) -> bool {
        qemu::runs_guest(self.name@, qemu::string_opt(self.exe))
    }

    /// The counters of the process.
    pub open spec fn counters(self) -> IoCounters {
        counters::counters_of(
            qemu::string_opt(self.io),
            qemu::string_opt(self.net_dev),
            qemu::guest_ifaces(self.fds@, text::strings(self.args@)),
        )
    }

    /// The name of the guest: that in the arguments, or else the id of the process.
    pub open spec fn guest_name(self) -> Seq<char> {
        match qemu::vm_name(text::strings(self.args@)) {
            Some(name) => name,
            None => "pid:"@ + figures::decimal(self.pid as nat),
        }
    }

    /// The sample of the process at a time.
    pub open spec fn sample(self, now: u64) -> PrevSample {
        PrevSample { counters: self.counters(), at: now }
    }

    /// The figures of the guest: throughput is the growth of each counter since the earlier sample,
    /// and none where there is no such sample.
    pub open spec fn guest(self, prev: Option<PrevSample>, now: u64) -> model::Guest {
        let cur = self.counters();
        let grown = |cur: u64, of: spec_fn(IoCounters) -> u64|
            match prev {
                Some(p) => rates::rate(
                    cur,
                    of(p.counters),
                    rates::in_seconds(rates::elapsed_ns(now, p.at)),
                ),
                None => 0,
            };
        model::Guest {
            pid: self.pid,
            name: self.guest_name(),
            cpu_pct: self.cpu,
            mem_mb: self.memory / 1048576,
            disk_read_bps: grown(cur.disk_read, |c: IoCounters| c.disk_read),
            disk_write_bps: grown(cur.disk_write, |c: IoCounters| c.disk_write),
            net_rx_bps: grown(cur.net_rx, |c: IoCounters| c.net_rx),
            net_tx_bps: grown(cur.net_tx, |c: IoCounters| c.net_tx),
        }
    }

    /// How long the guest has been running, and the state of its process.
    pub open spec fn life(self) -> GuestLife {
        GuestLife { state: self.status.guest(), uptime_secs: self.run_time }
    }

    fn runs_guest(&self) -> (r: bool)
        ensures
            r == self.is_guest(),
    {
        qemu::is_qemu_process(self.name.as_str(), qemu::borrowed_opt(&self.exe))
    }

    fn read_counters(&self) -> (r: IoCounters)
        ensures
            r == self.counters(),
    {
        let args = text::borrowed(self.args.as_slice());
        let ifaces = qemu::vm_ifaces_for_pid(self.fds.as_slice(), args.as_slice());
        counters::read_io_counters(
            qemu::borrowed_opt(&self.io),
            qemu::borrowed_opt(&self.net_dev),
            &ifaces,
        )
    }

    fn read_name(&self) -> (r: String)
        ensures
            r@ == self.guest_name(),
    {
        let args = text::borrowed(self.args.as_slice());
        match qemu::extract_vm_name(args.as_slice()) {
            Some(name) => name,
            None => {
                let mut out: Vec<char> = Vec::new();
                figures::append(&mut out, "pid:");
                figures::append_number(&mut out, self.pid as u64);
                assert(out@ =~= "pid:"@ + figures::decimal(self.pid as nat));
                text::to_text(out.as_slice())
            },
        }
    }

    fn read_guest(&self, cur: IoCounters, prev: Option<PrevSample>, now: u64) -> (r: VmStats)
        requires
            cur == self.counters(),
        ensures
            r@ == self.guest(prev, now),
    {
        let mut grown = IoCounters::default();
        if let Some(p) = prev {
            let dt = rates::elapsed(now, p.at);
            grown.disk_read = rates::per_second(cur.disk_read, p.counters.disk_read, dt);
            grown.disk_write = rates::per_second(cur.disk_write, p.counters.disk_write, dt);
            grown.net_rx = rates::per_second(cur.net_rx, p.counters.net_rx, dt);
            grown.net_tx = rates::per_second(cur.net_tx, p.counters.net_tx, dt);
        }
        VmStats {
            pid: self.pid,
            name: self.read_name(),
            cpu_pct: self.cpu,
            mem_mb: self.memory / 1024 / 1024,
            disk_read_bps: grown.disk_read,
            disk_write_bps: grown.disk_write,
            net_rx_bps: grown.net_rx,
            net_tx_bps: grown.net_tx,
        }
    }
}

/// A thread of a guest's process, as far as it could be read.
pub struct ThreadReading {
    pub tid: u32,
    /// The content of `/proc/[pid]/task/[tid]/comm`.
    pub comm: Option<String>,
    /// The content of `/proc/[pid]/task/[tid]/stat`.
    pub stat: Option<String>,
    /// The content of `/proc/[pid]/task/[tid]/schedstat`.
    pub schedstat: Option<String>,
}

impl ThreadReading {
    /// The index of the vCPU that the thread runs and the CPU that it runs on, if it runs a vCPU
    /// and both could be read.
    pub open spec fn vcpu(self) -> Option<(u32, u32)> {
        match (self.comm, self.stat) {
            (Some(comm), Some(stat)) => match (
                threads::vcpu_index(comm@),
                threads::stat_processor(stat@),
            ) {
                (Some(index), Some(cpu)) => Some((index, cpu)),
                _ => None,
            },
            _ => None,
        }
    }

    /// The time in nanoseconds that the thread has waited, or 0 where it could not be read.
    pub open spec fn wait_ns(self) -> u64 {
        match self.schedstat {
            Some(content) => match threads::schedstat_wait(content@) {
                Some(ns) => ns,
                None => 0,
            },
            None => 0,
        }
    }

    fn read_vcpu(&self) -> (r: Option<(u32, u32)>)
        ensures
            r == self.vcpu(),
    {
        match (&self.comm, &self.stat) {
            (Some(comm), Some(stat)) => match (
                threads::parse_vcpu_index(comm.as_str()),
                threads::parse_stat_processor_field(stat.as_str()),
            ) {
                (Some(index), Some(cpu)) => Some((index, cpu)),
                _ => None,
            },
            _ => None,
        }
    }

    fn read_wait_ns(&self) -> (r: u64)
        ensures
            r == self.wait_ns(),
    {
        match &self.schedstat {
            Some(content) => match threads::parse_schedstat_wait_ns(content.as_str()) {
                Some(ns) => ns,
                None => 0,
            },
            None => 0,
        }
    }
}

/// What came of reading `/proc/[pid]/numa_maps`.
pub enum NumaReading {
    /// Its content.
    Content(String),
    /// Reading it is not permitted.
    Denied,
    /// It could not be read for another reason.
    Failed,
}

/// What is read of one guest to show its detail.
pub struct DetailReading {
    pub threads: Vec<ThreadReading>,
    pub numa: NumaReading,
}

impl DetailReading {
    /// The number of the guest's pages fits.
    pub open spec fn wf(self) -> bool {
        match self.numa {
            NumaReading::Content(content) => topology::pages_total(text::words_of(content@))
                <= u64::MAX,
            _ => true,
        }
    }
}

// ---------------------------------------------------------------------------
// Folding over readings

/// The samples `prev`, with those of the guests among the processes taken over.
pub open spec fn seeded(
    prev: Map<u32, PrevSample>,
    procs: Seq<ProcessReading>,
    now: u64,
) -> Map<u32, PrevSample>
    decreases procs.len(),
{
    if procs.len() == 0 {
        prev
    } else {
        let before = seeded(prev, procs.drop_last(), now);
        let p = procs.last();
        if p.is_guest() {
            before.insert(p.pid, p.sample(now))
        } else {
            before
        }
    }
}

/// The value of a key in a map, if it has one.
pub open spec fn lookup<K, V>(m: Map<K, V>, k: K) -> Option<V> {
    if m.contains_key(k) {
        Some(m[k])
    } else {
        None
    }
}

/// The guests among the processes, in order.
pub open spec fn guests(
    prev: Map<u32, PrevSample>,
    procs: Seq<ProcessReading>,
    now: u64,
) -> Seq<model::Guest>
    decreases procs.len(),
{
    if procs.len() == 0 {
        Seq::empty()
    } else {
        let before = guests(prev, procs.drop_last(), now);
        let p = procs.last();
        if p.is_guest() {
            before.push(p.guest(lookup(seeded(prev, procs.drop_last(), now), p.pid), now))
        } else {
            before
        }
    }
}

/// How long each guest has been running, and the state of its process.
pub open spec fn lives(procs: Seq<ProcessReading>) -> Map<u32, GuestLife>
    decreases procs.len(),
{
    if procs.len() == 0 {
        Map::empty()
    } else {
        let before = lives(procs.drop_last());
        let p = procs.last();
        if p.is_guest() {
            before.insert(p.pid, p.life())
        } else {
            before
        }
    }
}

/// The process ids of guests.
pub open spec fn pids(vms: Seq<model::Guest>) -> Seq<u32> {
    vms.map_values(|g: model::Guest| g.pid)
}

/// The samples that are kept: those of the given processes alone, once there are more than twice as
/// many samples as processes.
pub open spec fn kept(prev: Map<u32, PrevSample>, seen: Seq<u32>) -> Map<u32, PrevSample> {
    if prev.dom().len() > 2 * seen.len() {
        prev.restrict(seen.to_set())
    } else {
        prev
    }
}

/// The vCPU that a thread of the process `pid` runs, if it runs one. Its waiting time is the growth
/// since the earlier sample, and none where there is no such sample.
pub open spec fn vcpu_of(
    t: ThreadReading,
    pid: u32,
    prev: Map<(u32, u32), ThreadPrevSample>,
    cpu_to_node: Map<u32, u32>,
    now: u64,
) -> Option<model::VCpu> {
    match t.vcpu() {
        Some((vcpu_index, cur_cpu)) => Some(
            model::VCpu {
                tid: t.tid,
                vcpu_index,
                cur_cpu,
                numa_node: lookup(cpu_to_node, cur_cpu),
                wait_pct: match lookup(prev, (pid, t.tid)) {
                    Some(p) => rates::wait_share(
                        rates::rate(
                            t.wait_ns(),
                            p.wait_ns,
                            rates::in_seconds(rates::elapsed_ns(now, p.at)),
                        ),
                    ),
                    None => float::Dyadic { m: 0, e: 0 },
                },
            },
        ),
        None => None,
    }
}

/// The samples `prev`, with those of the vCPU threads of the process `pid` taken over.
pub open spec fn thread_seeded(
    prev: Map<(u32, u32), ThreadPrevSample>,
    pid: u32,
    ts: Seq<ThreadReading>,
    now: u64,
) -> Map<(u32, u32), ThreadPrevSample>
    decreases ts.len(),
{
    if ts.len() == 0 {
        prev
    } else {
        let before = thread_seeded(prev, pid, ts.drop_last(), now);
        let t = ts.last();
        if t.vcpu() is Some {
            before.insert((pid, t.tid), ThreadPrevSample { wait_ns: t.wait_ns(), at: now })
        } else {
            before
        }
    }
}

/// The vCPUs that the threads of the process `pid` run, in order.
pub open spec fn vcpus(
    prev: Map<(u32, u32), ThreadPrevSample>,
    pid: u32,
    ts: Seq<ThreadReading>,
    cpu_to_node: Map<u32, u32>,
    now: u64,
) -> Seq<model::VCpu>
    decreases ts.len(),
{
    if ts.len() == 0 {
        Seq::empty()
    } else {
        let before = vcpus(prev, pid, ts.drop_last(), cpu_to_node, now);
        match vcpu_of(
            ts.last(),
            pid,
            thread_seeded(prev, pid, ts.drop_last(), now),
            cpu_to_node,
            now,
        ) {
            Some(v) => before.push(v),
            None => before,
        }
    }
}

/// The thread ids of vCPUs.
pub open spec fn tids(vs: Seq<model::VCpu>) -> Seq<u32> {
    vs.map_values(|v: model::VCpu| v.tid)
}

// ---------------------------------------------------------------------------
// State

/// A key that was pressed.
#[derive(Debug, Clone, Copy, PartialEq, Eq, Structural)]
pub enum Key {
    Char(char),
    Esc,
    Up,
    Down,
    Enter,
    Tab,
    /// Any other key.
    Other,
}

/// The state of the monitor as a mathematical value.
#[verifier::ext_equal]
pub ghost struct State {
    pub vms: Seq<model::Guest>,
    pub lives: Map<u32, GuestLife>,
    pub host: HostStats,
    pub prev: Map<u32, PrevSample>,
    pub sort_by: SortBy,
    pub should_quit: bool,
    pub selected: int,
    pub expanded: bool,
    pub cpu_to_node: Map<u32, u32>,
    pub prev_thread: Map<(u32, u32), ThreadPrevSample>,
    pub detail: Option<model::Detail>,
    pub cursor: Option<int>,
    pub feed: libvirt::Feed,
}

/// Whether the selection and the detail fit the guests: the selected row is that of a guest and is
/// the one that is marked, and without the detail view there is no detail.
pub open spec fn valid(s: State) -> bool {
    &&& s.vms.len() == 0 ==> s.selected == 0
    &&& s.vms.len() > 0 ==> 0 <= s.selected < s.vms.len() && s.cursor == Some(s.selected)
    &&& !s.expanded ==> s.detail is None
}

/// The state of a monitor that has read nothing yet.
pub open spec fn initial(cpu_to_node: Map<u32, u32>) -> State {
    State {
        vms: Seq::empty(),
        lives: Map::empty(),
        host: HostStats { cpu_pct: F32 { bits: 0 }, mem_used_mb: 0, mem_total_mb: 0 },
        prev: Map::empty(),
        sort_by: SortBy::Cpu,
        should_quit: false,
        selected: 0,
        expanded: false,
        cpu_to_node,
        prev_thread: Map::empty(),
        detail: None,
        cursor: Some(0),
        feed: libvirt::Feed { domains: Seq::empty(), disabled: false },
    }
}

/// The state after the guests were sorted another way. The selection stays where it is.
pub open spec fn with_sort(s: State, by: SortBy) -> State {
    if s.sort_by == by {
        s
    } else {
        State { sort_by: by, vms: sort::sorted(s.vms, by), ..s }
    }
}

/// The row that is `delta` rows below the selected one. Below the last row comes the first.
pub open spec fn row_after(s: State, delta: int) -> int {
    (s.selected + delta) % (s.vms.len() as int)
}

/// The state after the selection was moved, and whether the detail has to be read anew.
pub open spec fn with_selection_moved(s: State, delta: int) -> (State, bool) {
    if s.vms.len() == 0 || row_after(s, delta) == s.selected {
        (s, false)
    } else {
        let row = row_after(s, delta);
        (State { selected: row, cursor: Some(row), ..s }, s.expanded)
    }
}

/// The state after the detail view was opened or closed, and whether the detail has to be read.
pub open spec fn with_detail_toggled(s: State) -> (State, bool) {
    if s.vms.len() == 0 {
        (s, false)
    } else if s.expanded {
        (State { expanded: false, detail: None, ..s }, false)
    } else {
        (State { expanded: true, ..s }, true)
    }
}

/// The state after a key was pressed, and whether the detail has to be read anew.
pub open spec fn pressed(s: State, key: Key) -> (State, bool) {
    match key {
        Key::Char('q') | Key::Char('Q') | Key::Esc => (State { should_quit: true, ..s }, false),
        Key::Char('c') | Key::Char('C') => (with_sort(s, SortBy::Cpu), false),
        Key::Char('d') | Key::Char('D') => (with_sort(s, SortBy::DiskIo), false),
        Key::Char('n') | Key::Char('N') => (with_sort(s, SortBy::NetIo), false),
        Key::Char('m') | Key::Char('M') => (with_sort(s, SortBy::Memory), false),
        Key::Up => with_selection_moved(s, -1),
        Key::Down => with_selection_moved(s, 1),
        Key::Enter | Key::Tab => with_detail_toggled(s),
        _ => (s, false),
    }
}

/// The figures of the host: its load is the mean over its CPUs.
pub open spec fn host_of(r: HostReading) -> HostStats {
    HostStats {
        cpu_pct: single::mean(r.cpus@),
        mem_used_mb: r.used / 1048576,
        mem_total_mb: r.total / 1048576,
    }
}

/// The selected row, or the last one where there are fewer.
pub open spec fn clamped(selected: int, len: nat) -> int {
    if selected < len {
        selected
    } else if len == 0 {
        0
    } else {
        len - 1
    }
}

/// The state after host and processes were read.
pub open spec fn refreshed(
    s: State,
    host: HostReading,
    procs: Seq<ProcessReading>,
    now: u64,
) -> State {
    let found = guests(s.prev, procs, now);
    let selected = clamped(s.selected, found.len());
    State {
        vms: sort::sorted(found, s.sort_by),
        lives: lives(procs),
        host: host_of(host),
        prev: kept(seeded(s.prev, procs, now), pids(found)),
        selected,
        cursor: if found.len() == 0 {
            None
        } else {
            Some(selected)
        },
        prev_thread: s.prev_thread.restrict(
            Set::new(|k: (u32, u32)| pids(found).contains(k.0)),
        ),
        ..s
    }
}

/// The process id of the selected guest.
pub open spec fn selected_guest(s: State) -> Option<u32> {
    if 0 <= s.selected < s.vms.len() {
        Some(s.vms[s.selected].pid)
    } else {
        None
    }
}

/// Whether `d` is the detail that the reading of the process `pid` gives: its vCPUs by ascending
/// index, and the placement of its memory where that could be read.
pub open spec fn is_detail(d: model::Detail, s: State, pid: u32, r: DetailReading, now: u64) -> bool {
    &&& d.vcpus == sort::sorted(
        vcpus(s.prev_thread, pid, r.threads@, s.cpu_to_node, now),
        ByIndex,
    )
    &&& d.denied == (r.numa is Denied)
    &&& match r.numa {
        NumaReading::Content(content) => placement::is_placement(
            d.mem_by_node,
            text::words_of(content@),
        ),
        _ => d.mem_by_node.len() == 0,
    }
}

/// The samples of threads after the detail of the process `pid` was read: those of its vCPU threads
/// are taken over, and those of its other threads are dropped.
pub open spec fn threads_after(
    s: State,
    pid: u32,
    r: DetailReading,
    now: u64,
) -> Map<(u32, u32), ThreadPrevSample> {
    let found = tids(vcpus(s.prev_thread, pid, r.threads@, s.cpu_to_node, now));
    thread_seeded(s.prev_thread, pid, r.threads@, now).restrict(
        Set::new(|k: (u32, u32)| k.0 != pid || found.contains(k.1)),
    )
}

/// Whether `t` is the state `s` after the detail of the selected guest was read.
pub open spec fn is_detailed(t: State, s: State, r: DetailReading, now: u64) -> bool {
    match selected_guest(s) {
        Some(pid) => {
            &&& t == State {
                detail: t.detail,
                prev_thread: threads_after(s, pid, r, now),
                ..s
            }
            &&& t.detail matches Some(d) && is_detail(d, s, pid, r, now)
        },
        None => t == State { detail: None, ..s },
    }
}

/// The monitor.
pub struct App {
    vms: Vec<VmStats>,
    lives: HashMap<u32, GuestLife>,
    host: HostStats,
    prev: HashMap<u32, PrevSample>,
    sort_by: SortBy,
    should_quit: bool,
    selected: usize,
    expanded: bool,
    cpu_to_node: HashMap<u32, u32>,
    node_count: usize,
    prev_thread: ThreadSamples,
    detail: Option<VmDetail>,
    cursor: Option<usize>,
    feed: DomainFeed,
}

impl View for App {
    type V = State;

    closed spec fn view(&self) -> State {
        State {
            vms: sort::views(self.vms@),
            lives: self.lives@,
            host: self.host,
            prev: self.prev@,
            sort_by: self.sort_by,
            should_quit: self.should_quit,
            selected: self.selected as int,
            expanded: self.expanded,
            cpu_to_node: self.cpu_to_node@,
            prev_thread: self.prev_thread@,
            detail: match self.detail {
                Some(d) => Some(d@),
                None => None,
            },
            cursor: match self.cursor {
                Some(row) => Some(row as int),
                None => None,
            },
            feed: self.feed@,
        }
    }
}

impl App {
    /// The selection and the detail fit the guests, and the number of NUMA nodes is known.
    pub closed spec fn wf(&self) -> bool {
        &&& valid(self@)
        &&& self.node_count == self.cpu_to_node@.values().len()
    }

    /// In every monitor the selection and the detail fit the guests.
    pub proof fn law_monitor_is_valid(&self)
        requires
            self.wf(),
        ensures
            valid(self@),
    {
    }

    /// A monitor that has read nothing yet.
    pub fn new(cpu_to_node: HashMap<u32, u32>) -> (r: Self)
        ensures
            r.wf(),
            r@ == initial(cpu_to_node@),
    {
        broadcast use vstd::std_specs::hash::group_hash_axioms;

        let node_count = samples::distinct_values(&cpu_to_node);
        let r = App {
            vms: Vec::new(),
            lives: HashMap::new(),
            host: HostStats::default(),
            prev: HashMap::new(),
            sort_by: SortBy::Cpu,
            should_quit: false,
            selected: 0,
            expanded: false,
            cpu_to_node,
            node_count,
            prev_thread: ThreadSamples::new(),
            detail: None,
            cursor: Some(0),
            feed: DomainFeed::new(),
        };
        assert(r@ =~= initial(cpu_to_node@));
        r
    }

    /// Takes the counters of all guests over as a baseline, so that the first refresh already gives
    /// their growth.
    pub fn prime(&mut self, procs: &[ProcessReading], now: u64)
        requires
            old(self).wf(),
        ensures
            final(self).wf(),
            final(self)@ == (State { prev: seeded(old(self)@.prev, procs@, now), ..old(self)@ }),
    {
        broadcast use vstd::std_specs::hash::group_hash_axioms;

        let ghost start = self@;
        let mut i: usize = 0;
        assert(procs@.take(0) =~= Seq::<ProcessReading>::empty());
        while i < procs.len()
            invariant
                i <= procs@.len(),
                self.wf(),
                self@ == (State { prev: seeded(start.prev, procs@.take(i as int), now), ..start }),
            decreases procs@.len() - i,
        {
            proof {
                assert(procs@.take(i + 1).drop_last() =~= procs@.take(i as int));
                assert(procs@.take(i + 1).last() == procs@[i as int]);
            }
            if procs[i].runs_guest() {
                let counters = procs[i].read_counters();
                self.prev.insert(procs[i].pid, PrevSample { counters, at: now });
            }
            i += 1;
        }
        assert(procs@.take(procs@.len() as int) =~= procs@);
    }

    /// Sorts the guests another way, at once and not with the next refresh only.
    pub fn set_sort(&mut self, by: SortBy)
        requires
            old(self).wf(),
        ensures
            final(self).wf(),
            final(self)@ == with_sort(old(self)@, by),
            final(self)@.vms.len() == old(self)@.vms.len(),
            old(self)@.sort_by != by ==> sort::is_sort_of(final(self)@.vms, old(self)@.vms, by),
    {
        if self.sort_by != by {
            self.sort_by = by;
            model::sort_vms(&mut self.vms, by);
            assert(self@ =~= with_sort(old(self)@, by));
        }
    }

    /// Opens or closes the detail view of the selected guest. The result tells whether the detail
    /// has to be read.
    pub fn toggle_expanded(&mut self) -> (r: bool)
        requires
            old(self).wf(),
        ensures
            final(self).wf(),
            (final(self)@, r) == with_detail_toggled(old(self)@),
    {
        if self.vms.is_empty() {
            return false;
        }
        self.expanded = !self.expanded;
        if self.expanded {
            assert(self@ =~= with_detail_toggled(old(self)@).0);
            true
        } else {
            self.detail = None;
            assert(self@ =~= with_detail_toggled(old(self)@).0);
            false
        }
    }

    /// Moves the selection by a number of rows; below the last row comes the first. The result tells
    /// whether the detail has to be read anew.
    pub fn move_selection(&mut self, delta: i32) -> (r: bool)
        requires
            old(self).wf(),
        ensures
            final(self).wf(),
            (final(self)@, r) == with_selection_moved(old(self)@, delta as int),
    {
        if self.vms.is_empty() {
            return false;
        }
        let next = wrapped(self.selected, delta, self.vms.len());
        if next == self.selected {
            return false;
        }
        self.selected = next;
        self.cursor = Some(next);
        assert(self@ =~= with_selection_moved(old(self)@, delta as int).0);
        self.expanded
    }

    /// Acts on a key. The result tells whether the detail has to be read anew.
    pub fn on_key(&mut self, key: Key) -> (r: bool)
        requires
            old(self).wf(),
        ensures
            final(self).wf(),
            (final(self)@, r) == pressed(old(self)@, key),
    {
        match key {
            Key::Char('q') | Key::Char('Q') | Key::Esc => {
                self.should_quit = true;
                false
            },
            Key::Char('c') | Key::Char('C') => {
                self.set_sort(SortBy::Cpu);
                false
            },
            Key::Char('d') | Key::Char('D') => {
                self.set_sort(SortBy::DiskIo);
                false
            },
            Key::Char('n') | Key::Char('N') => {
                self.set_sort(SortBy::NetIo);
                false
            },
            Key::Char('m') | Key::Char('M') => {
                self.set_sort(SortBy::Memory);
                false
            },
            Key::Up => self.move_selection(-1),
            Key::Down => self.move_selection(1),
            Key::Enter | Key::Tab => self.toggle_expanded(),
            _ => false,
        }
    }

    /// Takes new readings of the host and of all processes over. The guests are found among the
    /// processes, their throughput is computed and they are sorted; the selection moves up where
    /// there are fewer of them than before. The result tells whether the detail has to be read anew.
    pub fn refresh(&mut self, host: &HostReading, procs: &[ProcessReading], now: u64) -> (r: bool)
        requires
            old(self).wf(),
        ensures
            final(self).wf(),
            final(self)@ == refreshed(old(self)@, *host, procs@, now),
            sort::is_sort_of(
                final(self)@.vms,
                guests(old(self)@.prev, procs@, now),
                old(self)@.sort_by,
            ),
            r == old(self)@.expanded,
    {
        broadcast use vstd::std_specs::hash::group_hash_axioms;

        let ghost start = self@;
        let mut vms: Vec<VmStats> = Vec::new();
        let mut seen: Vec<u32> = Vec::new();
        let mut lived: HashMap<u32, GuestLife> = HashMap::new();
        let mut i: usize = 0;
        proof {
            assert(procs@.take(0) =~= Seq::<ProcessReading>::empty());
            assert(sort::views(vms@) =~= Seq::<model::Guest>::empty());
            assert(seen@ =~= pids(Seq::<model::Guest>::empty()));
        }
        while i < procs.len()
            invariant
                i <= procs@.len(),
                self@ == (State { prev: seeded(start.prev, procs@.take(i as int), now), ..start }),
                sort::views(vms@) == guests(start.prev, procs@.take(i as int), now),
                seen@ == pids(guests(start.prev, procs@.take(i as int), now)),
                lived@ == lives(procs@.take(i as int)),
                self.node_count == self.cpu_to_node@.values().len(),
            decreases procs@.len() - i,
        {
            let ghost found = sort::views(vms@);
            proof {
                assert(procs@.take(i + 1).drop_last() =~= procs@.take(i as int));
                assert(procs@.take(i + 1).last() == procs@[i as int]);
            }
            let p = &procs[i];
            if p.runs_guest() {
                let cur = p.read_counters();
                let prev: Option<PrevSample> = match self.prev.get(&p.pid) {
                    Some(sample) => Some(*sample),
                    None => None,
                };
                let vm = p.read_guest(cur, prev, now);
                let ghost guest = vm@;
                self.prev.insert(p.pid, PrevSample { counters: cur, at: now });
                vms.push(vm);
                seen.push(p.pid);
                lived.insert(
                    p.pid,
                    GuestLife { state: p.status.guest_state(), uptime_secs: p.run_time },
                );
                proof {
                    assert(sort::views(vms@) =~= found.push(guest));
                    assert(pids(found.push(guest)) =~= pids(found).push(guest.pid));
                }
            }
            i += 1;
        }
        let ghost found = sort::views(vms@);
        proof {
            assert(procs@.take(procs@.len() as int) =~= procs@);
        }
        self.host = HostStats {
            cpu_pct: single::mean_rounded(host.cpus.as_slice()),
            mem_used_mb: host.used / 1024 / 1024,
            mem_total_mb: host.total / 1024 / 1024,
        };
        let n = seen.len();
        if self.prev.len() > n && self.prev.len() - n > n {
            self.prev = samples::restricted(&self.prev, seen.as_slice());
        }
        model::sort_vms(&mut vms, self.sort_by);
        self.vms = vms;
        self.lives = lived;
        if self.selected >= self.vms.len() {
            self.selected = if self.vms.is_empty() {
                0
            } else {
                self.vms.len() - 1
            };
        }
        self.cursor = if self.vms.is_empty() {
            None
        } else {
            Some(self.selected)
        };
        self.prev_thread.keep_processes(seen.as_slice());
        assert(self@ =~= refreshed(start, *host, procs@, now));
        self.expanded
    }

    /// The process id of the selected guest, of which the detail is read.
    pub fn selected_pid(&self) -> (r: Option<u32>)
        ensures
            r == selected_guest(self@),
    {
        if self.selected < self.vms.len() {
            assert(sort::views(self.vms@)[self.selected as int] == self.vms@[self.selected as int]@);
            Some(self.vms[self.selected].pid)
        } else {
            None
        }
    }

    /// Takes the detail of the selected guest over. It is read for this guest alone: to walk over
    /// the threads and the memory of all guests would slow every refresh down.
    pub fn recompute_detail(&mut self, reading: &DetailReading, now: u64)
        requires
            old(self).wf(),
            old(self)@.expanded,
            reading.wf(),
        ensures
            final(self).wf(),
            is_detailed(final(self)@, old(self)@, *reading, now),
    {
        broadcast use vstd::std_specs::hash::group_hash_axioms;

        let ghost start = self@;
        let pid = match self.selected_pid() {
            Some(pid) => pid,
            None => {
                self.detail = None;
                assert(self@ =~= (State { detail: None, ..start }));
                return;
            },
        };
        let ts = reading.threads.as_slice();
        let mut vs: Vec<VCpuThread> = Vec::new();
        let mut seen: Vec<u32> = Vec::new();
        let mut i: usize = 0;
        proof {
            assert(ts@.take(0) =~= Seq::<ThreadReading>::empty());
            assert(sort::views(vs@) =~= Seq::<model::VCpu>::empty());
            assert(seen@ =~= tids(Seq::<model::VCpu>::empty()));
        }
        while i < ts.len()
            invariant
                i <= ts@.len(),
                self@ == (State {
                    prev_thread: thread_seeded(start.prev_thread, pid, ts@.take(i as int), now),
                    ..start
                }),
                self.wf(),
                sort::views(vs@) == vcpus(
                    start.prev_thread,
                    pid,
                    ts@.take(i as int),
                    start.cpu_to_node,
                    now,
                ),
                seen@ == tids(sort::views(vs@)),
            decreases ts@.len() - i,
        {
            let ghost found = sort::views(vs@);
            proof {
                assert(ts@.take(i + 1).drop_last() =~= ts@.take(i as int));
                assert(ts@.take(i + 1).last() == ts@[i as int]);
            }
            let t = &ts[i];
            if let Some((vcpu_index, cur_cpu)) = t.read_vcpu() {
                let numa_node: Option<u32> = match self.cpu_to_node.get(&cur_cpu) {
                    Some(node) => Some(*node),
                    None => None,
                };
                let wait_ns: u64 = t.read_wait_ns();
                let wait_pct = match self.prev_thread.get(pid, t.tid) {
                    Some(p) => rates::wait_percent(
                        rates::per_second(wait_ns, p.wait_ns, rates::elapsed(now, p.at)),
                    ),
                    None => Float { m: 0, e: 0 },
                };
                self.prev_thread.insert(pid, t.tid, ThreadPrevSample { wait_ns, at: now });
                let v = VCpuThread { tid: t.tid, vcpu_index, cur_cpu, numa_node, wait_pct };
                vs.push(v);
                seen.push(t.tid);
                proof {
                    assert(sort::views(vs@) =~= found.push(v@));
                    assert(tids(found.push(v@)) =~= tids(found).push(t.tid));
                }
            }
            i += 1;
        }
        proof {
            assert(ts@.take(ts@.len() as int) =~= ts@);
        }
        sort::sort_descending(&mut vs, ByIndex);
        self.prev_thread.keep_threads(pid, seen.as_slice());
        let (mem_by_node, denied): (Vec<(u32, Float)>, bool) = match &reading.numa {
            NumaReading::Content(content) => (
                placement::memory_shares(content.as_str()),
                false,
            ),
            NumaReading::Denied => (Vec::new(), true),
            NumaReading::Failed => (Vec::new(), false),
        };
        self.detail = Some(VmDetail { vcpus: vs, mem_by_node, denied });
        assert(self@ =~= (State {
            detail: self@.detail,
            prev_thread: threads_after(start, pid, *reading, now),
            ..start
        }));
    }

    /// The guests, in the order in which they are listed.
    pub fn vms(&self) -> (r: &[VmStats])
        ensures
            sort::views(r@) == self@.vms,
    {
        self.vms.as_slice()
    }

    /// How long a guest has been running, and the state of its process.
    pub fn life_of(&self, pid: u32) -> (r: Option<GuestLife>)
        ensures
            r == lookup(self@.lives, pid),
    {
        broadcast use vstd::std_specs::hash::group_hash_axioms;

        match self.lives.get(&pid) {
            Some(life) => Some(*life),
            None => None,
        }
    }

    /// The state of the libvirt domain of a guest with this name, where it is known.
    pub fn domain_state(&self, name: &str) -> (r: Option<DomainState>)
        ensures
            r == libvirt::state_named(self@.feed.domains, name@),
    {
        self.feed.state_of(name)
    }

    /// Whether libvirt is still polled.
    pub fn is_polling(&self) -> (r: bool)
        ensures
            r == !self@.feed.disabled,
    {
        self.feed.is_enabled()
    }

    /// The figures of the host.
    pub fn host(&self) -> (r: HostStats)
        ensures
            r == self@.host,
    {
        self.host
    }

    /// What the guests are sorted by.
    pub fn sort_by(&self) -> (r: SortBy)
        ensures
            r == self@.sort_by,
    {
        self.sort_by
    }

    /// Whether the monitor shall end.
    pub fn should_quit(&self) -> (r: bool)
        ensures
            r == self@.should_quit,
    {
        self.should_quit
    }

    /// Whether the detail view is open.
    pub fn expanded(&self) -> (r: bool)
        ensures
            r == self@.expanded,
    {
        self.expanded
    }

    /// The row that is marked.
    pub fn cursor(&self) -> (r: Option<usize>)
        ensures
            match r {
                Some(row) => self@.cursor == Some(row as int),
                None => self@.cursor is None,
            },
    {
        self.cursor
    }

    /// The number of NUMA nodes of the host.
    pub fn node_count(&self) -> (r: usize)
        requires
            self.wf(),
        ensures
            r == self@.cpu_to_node.values().len(),
    {
        self.node_count
    }

    /// The detail of the selected guest.
    pub fn detail(&self) -> (r: Option<&VmDetail>)
        ensures
            match r {
                Some(d) => self@.detail == Some(d@),
                None => self@.detail is None,
            },
    {
        match &self.detail {
            Some(d) => Some(d),
            None => None,
        }
    }

    /// Takes the outcome of a libvirt poll over.
    pub fn apply_poll(&mut self, poll: &Poll)
        requires
            old(self).wf(),
        ensures
            final(self).wf(),
            final(self)@ == (State { feed: libvirt::polled(old(self)@.feed, *poll), ..old(self)@ }),
    {
        self.feed.apply(poll);
    }
}

// ---------------------------------------------------------------------------
// Pace

/// The time from one refresh to the next, in nanoseconds. A process's load can only be measured over
/// a fifth of a second or more.
pub const TICK_NS: u64 = 1_000_000_000;

/// The time from one libvirt poll to the next, in nanoseconds.
pub const POLL_NS: u64 = 5_000_000_000;

/// The time left to wait for a key, where `elapsed` nanoseconds have passed since the last refresh.
pub fn time_to_wait(elapsed: u64) -> (r: u64)
    ensures
        elapsed < TICK_NS ==> r == TICK_NS - elapsed,
        elapsed >= TICK_NS ==> r == 0,
{
    if elapsed < TICK_NS {
        TICK_NS - elapsed
    } else {
        0
    }
}

/// Whether a refresh is due, where `elapsed` nanoseconds have passed since the last one.
pub fn tick_due(elapsed: u64) -> (r: bool)
    ensures
        r == (elapsed >= TICK_NS),
{
    elapsed >= TICK_NS
}

/// The row `delta` rows below `row` of `len` rows, below the last of which comes the first.
fn wrapped(row: usize, delta: i32, len: usize) -> (r: usize)
    requires
        row < len,
    ensures
        r == (row + delta) % (len as int),
{
    let n = len as i128;
    let t = row as i128 + delta as i128;
    if t >= 0 {
        (t % n) as usize
    } else {
        let back = (-t) % n;
        proof {
            lemma_negative_mod(t as int, n as int);
        }
        if back == 0 {
            0
        } else {
            (n - back) as usize
        }
    }
}

proof fn lemma_negative_mod(t: int, n: int)
    requires
        n > 0,
        t < 0,
    ensures
        t % n == if (-t) % n == 0 {
            0
        } else {
            n - (-t) % n
        },
        0 <= (-t) % n < n,
{
    let q = (-t) / n;
    let k = (-t) % n;
    vstd::arithmetic::div_mod::lemma_fundamental_div_mod(-t, n);
    if k == 0 {
        assert(t == (-q) * n + 0) by (nonlinear_arith)
            requires
                -t == n * q + k,
                k == 0,
        ;
        vstd::arithmetic::div_mod::lemma_fundamental_div_mod_converse(t, n, -q, 0);
    } else {
        assert(t == (-q - 1) * n + (n - k)) by (nonlinear_arith)
            requires
                -t == n * q + k,
        ;
        vstd::arithmetic::div_mod::lemma_fundamental_div_mod_converse(t, n, -q - 1, n - k);
    }
}

// ---------------------------------------------------------------------------
// Laws

/// A monitor starts with a selection and a detail that fit its guests, of which there are none.
pub proof fn law_start_is_valid(cpu_to_node: Map<u32, u32>)
    ensures
        valid(initial(cpu_to_node)),
{
}

/// Whatever key is pressed, the selection and the detail go on to fit the guests.
pub proof fn law_keys_keep_valid(s: State, key: Key)
    requires
        valid(s),
    ensures
        valid(pressed(s, key).0),
{
    sort::law_every_sequence_can_be_sorted(s.vms, SortBy::Cpu);
    sort::law_every_sequence_can_be_sorted(s.vms, SortBy::DiskIo);
    sort::law_every_sequence_can_be_sorted(s.vms, SortBy::NetIo);
    sort::law_every_sequence_can_be_sorted(s.vms, SortBy::Memory);
}

/// Whatever is read, the selection and the detail go on to fit the guests.
pub proof fn law_refresh_keeps_valid(
    s: State,
    host: HostReading,
    procs: Seq<ProcessReading>,
    now: u64,
)
    requires
        valid(s),
    ensures
        valid(refreshed(s, host, procs, now)),
{
    sort::law_every_sequence_can_be_sorted(guests(s.prev, procs, now), s.sort_by);
}

/// To read the detail of the selected guest keeps the selection and the detail fitting.
pub proof fn law_detail_keeps_valid(t: State, s: State, r: DetailReading, now: u64)
    requires
        valid(s),
        s.expanded,
        is_detailed(t, s, r, now),
    ensures
        valid(t),
{
}

/// To read the detail of a guest leaves the selection, the guests and the samples of other guests as
/// they are.
pub proof fn law_detail_touches_one_guest(
    t: State,
    s: State,
    r: DetailReading,
    now: u64,
    pid: u32,
    tid: u32,
)
    requires
        is_detailed(t, s, r, now),
        selected_guest(s) != Some(pid),
    ensures
        t.vms == s.vms && t.selected == s.selected && t.prev == s.prev,
        lookup(t.prev_thread, (pid, tid)) == lookup(s.prev_thread, (pid, tid)),
{
    match selected_guest(s) {
        Some(own) => {
            lemma_other_threads(s.prev_thread, own, r.threads@, now, (pid, tid));
        },
        None => {},
    }
}

proof fn lemma_other_threads(
    prev: Map<(u32, u32), ThreadPrevSample>,
    pid: u32,
    ts: Seq<ThreadReading>,
    now: u64,
    k: (u32, u32),
)
    requires
        k.0 != pid,
    ensures
        lookup(thread_seeded(prev, pid, ts, now), k) == lookup(prev, k),
    decreases ts.len(),
{
    if ts.len() > 0 {
        lemma_other_threads(prev, pid, ts.drop_last(), now, k);
    }
}

/// Only `q`, `Q` and Esc end the monitor.
pub proof fn law_only_quit_keys_end(s: State, key: Key)
    ensures
        pressed(s, key).0.should_quit <==> s.should_quit || key == Key::Char('q') || key == Key::Char(
            'Q',
        ) || key == Key::Esc,
{
}

/// Moving down and then up, or up and then down, gives the selection back.
pub proof fn law_down_and_up_cancel(s: State)
    requires
        valid(s),
    ensures
        pressed(pressed(s, Key::Down).0, Key::Up).0 == s,
        pressed(pressed(s, Key::Up).0, Key::Down).0 == s,
{
    if s.vms.len() > 0 {
        let n = s.vms.len() as int;
        lemma_wrap(s.selected, n);
        let down = pressed(s, Key::Down).0;
        let up = pressed(s, Key::Up).0;
        lemma_wrap(down.selected, n);
        lemma_wrap(up.selected, n);
        assert(pressed(down, Key::Up).0 =~= s);
        assert(pressed(up, Key::Down).0 =~= s);
    }
}

/// The rows after and before a row: below the last comes the first.
proof fn lemma_wrap(row: int, n: int)
    requires
        0 <= row < n,
    ensures
        (row + 1) % n == if row + 1 == n {
            0
        } else {
            row + 1
        },
        (row - 1) % n == if row == 0 {
            n - 1
        } else {
            row - 1
        },
{
    vstd::arithmetic::div_mod::lemma_fundamental_div_mod_converse(
        row + 1,
        n,
        if row + 1 == n {
            1
        } else {
            0
        },
        if row + 1 == n {
            0
        } else {
            row + 1
        },
    );
    vstd::arithmetic::div_mod::lemma_fundamental_div_mod_converse(
        row - 1,
        n,
        if row == 0 {
            -1
        } else {
            0
        },
        if row == 0 {
            n - 1
        } else {
            row - 1
        },
    );
}

/// Opening the detail view and closing it again changes nothing.
pub proof fn law_open_and_close_cancel(s: State)
    requires
        valid(s),
        !s.expanded,
    ensures
        with_detail_toggled(with_detail_toggled(s).0).0 == s,
{
    if s.vms.len() > 0 {
        assert(with_detail_toggled(with_detail_toggled(s).0).0 =~= s);
    }
}

/// Another order lists the same guests, in that order.
pub proof fn law_sorting_keeps_the_guests(s: State, by: SortBy)
    ensures
        with_sort(s, by).vms.to_multiset() == s.vms.to_multiset(),
        with_sort(s, by).sort_by == by,
        s.sort_by != by ==> sort::is_descending(with_sort(s, by).vms, by),
{
    sort::law_every_sequence_can_be_sorted(s.vms, by);
}

/// After a refresh the guests are listed in the chosen order.
pub proof fn law_refresh_lists_in_order(
    s: State,
    host: HostReading,
    procs: Seq<ProcessReading>,
    now: u64,
)
    ensures
        sort::is_descending(refreshed(s, host, procs, now).vms, s.sort_by),
        refreshed(s, host, procs, now).vms.to_multiset() == guests(s.prev, procs, now).to_multiset(),
{
    sort::law_every_sequence_can_be_sorted(guests(s.prev, procs, now), s.sort_by);
}

/// A guest without an earlier sample has no throughput yet.
pub proof fn law_new_guest_has_no_throughput(p: ProcessReading, now: u64)
    ensures
        ({
            let g = p.guest(None, now);
            g.disk_read_bps == 0 && g.disk_write_bps == 0 && g.net_rx_bps == 0 && g.net_tx_bps == 0
        }),
{
}

/// Counters that have gone back give no throughput: the process id is used by another process.
pub proof fn law_reset_counters_give_no_throughput(p: ProcessReading, prev: PrevSample, now: u64)
    requires
        p.counters().disk_read <= prev.counters.disk_read,
        p.counters().disk_write <= prev.counters.disk_write,
        p.counters().net_rx <= prev.counters.net_rx,
        p.counters().net_tx <= prev.counters.net_tx,
    ensures
        ({
            let g = p.guest(Some(prev), now);
            g.disk_read_bps == 0 && g.disk_write_bps == 0 && g.net_rx_bps == 0 && g.net_tx_bps == 0
        }),
{
}

/// Every guest that is listed is one of the processes that run a guest.
pub proof fn law_only_guests_are_listed(
    prev: Map<u32, PrevSample>,
    procs: Seq<ProcessReading>,
    now: u64,
    i: int,
)
    requires
        0 <= i < guests(prev, procs, now).len(),
    ensures
        exists|j: int|
            0 <= j < procs.len() && (#[trigger] procs[j]).is_guest() && procs[j].pid == guests(
                prev,
                procs,
                now,
            )[i].pid,
    decreases procs.len(),
{
    if procs.len() > 0 {
        let before = guests(prev, procs.drop_last(), now);
        if i < before.len() {
            law_only_guests_are_listed(prev, procs.drop_last(), now, i);
            let j = choose|j: int|
                0 <= j < procs.drop_last().len() && (#[trigger] procs.drop_last()[j]).is_guest()
                    && procs.drop_last()[j].pid == before[i].pid;
            assert(procs[j] == procs.drop_last()[j]);
        } else {
            assert(procs[procs.len() - 1] == procs.last());
        }
    }
}

/// Every process that runs a guest is listed.
pub proof fn law_every_guest_is_listed(
    prev: Map<u32, PrevSample>,
    procs: Seq<ProcessReading>,
    now: u64,
    j: int,
)
    requires
        0 <= j < procs.len(),
        procs[j].is_guest(),
    ensures
        exists|i: int|
            0 <= i < guests(prev, procs, now).len() && (#[trigger] guests(prev, procs, now)[i]).pid
                == procs[j].pid,
    decreases procs.len(),
{
    let before = guests(prev, procs.drop_last(), now);
    let all = guests(prev, procs, now);
    if j < procs.len() - 1 {
        assert(procs.drop_last()[j] == procs[j]);
        law_every_guest_is_listed(prev, procs.drop_last(), now, j);
        let i = choose|i: int| 0 <= i < before.len() && (#[trigger] before[i]).pid == procs[j].pid;
        assert(all[i] == before[i]);
    } else {
        assert(all[before.len() as int].pid == procs[j].pid);
    }
}

/// Samples do not pile up: after a refresh there are at most twice as many as guests.
pub proof fn law_samples_do_not_pile_up(
    s: State,
    host: HostReading,
    procs: Seq<ProcessReading>,
    now: u64,
)
    ensures
        refreshed(s, host, procs, now).prev.dom().len() <= 2 * guests(s.prev, procs, now).len(),
{
    let found = pids(guests(s.prev, procs, now));
    let all = seeded(s.prev, procs, now);
    if all.dom().len() > 2 * found.len() {
        let kept = all.restrict(found.to_set());
        found.lemma_cardinality_of_set();
        assert(kept.dom() =~= all.dom().intersect(found.to_set()));
        vstd::set_lib::lemma_len_subset(kept.dom(), found.to_set());
    }
}

/// The samples of a thread do not outlive its process: after a refresh they are those of guests.
pub proof fn law_threads_of_gone_guests_are_dropped(
    s: State,
    host: HostReading,
    procs: Seq<ProcessReading>,
    now: u64,
    k: (u32, u32),
)
    requires
        refreshed(s, host, procs, now).prev_thread.contains_key(k),
    ensures
        pids(guests(s.prev, procs, now)).contains(k.0),
{
}

/// The vCPUs of a guest are listed by ascending index.
pub proof fn law_vcpus_are_listed_by_index(
    d: model::Detail,
    s: State,
    pid: u32,
    r: DetailReading,
    now: u64,
    i: int,
    j: int,
)
    requires
        is_detail(d, s, pid, r, now),
        0 <= i <= j < d.vcpus.len(),
    ensures
        d.vcpus[i].vcpu_index <= d.vcpus[j].vcpu_index,
{
    let found = vcpus(s.prev_thread, pid, r.threads@, s.cpu_to_node, now);
    sort::law_every_sequence_can_be_sorted(found, ByIndex);
    assert(d.vcpus[i].rank(ByIndex) >= d.vcpus[j].rank(ByIndex));
}

/// A reading leaves one detail only.
pub proof fn law_one_detail_only(
    d1: model::Detail,
    d2: model::Detail,
    s: State,
    pid: u32,
    r: DetailReading,
    now: u64,
)
    requires
        is_detail(d1, s, pid, r, now),
        is_detail(d2, s, pid, r, now),
    ensures
        d1 == d2,
{
    match r.numa {
        NumaReading::Content(content) => {
            placement::law_one_placement_only(
                d1.mem_by_node,
                d2.mem_by_node,
                text::words_of(content@),
            );
        },
        _ => {
            assert(d1.mem_by_node =~= d2.mem_by_node);
        },
    }
    assert(d1 =~= d2);
}

/// A vCPU never waits more than all of the time.
pub proof fn law_vcpu_waits_at_most_all(
    t: ThreadReading,
    pid: u32,
    prev: Map<(u32, u32), ThreadPrevSample>,
    cpu_to_node: Map<u32, u32>,
    now: u64,
)
    ensures
        vcpu_of(t, pid, prev, cpu_to_node, now) matches Some(v) ==> !float::exceeds(
            v.wait_pct,
            100,
        ),
{
    match lookup(prev, (pid, t.tid)) {
        Some(p) => {
            rates::law_wait_is_at_most_all(
                rates::rate(
                    t.wait_ns(),
                    p.wait_ns,
                    rates::in_seconds(rates::elapsed_ns(now, p.at)),
                ),
            );
        },
        None => {
            assert(float::exp2(0) == 1);
            assert(float::at_scale(0, 1, 0) == (0nat, 1nat));
        },
    }
}

// ---------------------------------------------------------------------------
// Laws on samples and throughput

/// Whether a process is the only one with its id that runs a guest.
pub open spec fn is_sole_guest(procs: Seq<ProcessReading>, j: int) -> bool {
    &&& 0 <= j < procs.len()
    &&& procs[j].is_guest()
    &&& forall|k: int|
        0 <= k < procs.len() && k != j && (#[trigger] procs[k]).is_guest() ==> procs[k].pid
            != procs[j].pid
}

/// Whether a process runs a guest and no later one with its id does.
pub open spec fn is_last_guest(procs: Seq<ProcessReading>, j: int) -> bool {
    &&& 0 <= j < procs.len()
    &&& procs[j].is_guest()
    &&& forall|k: int|
        j < k < procs.len() && (#[trigger] procs[k]).is_guest() ==> procs[k].pid != procs[j].pid
}

/// When the counters of all guests are taken over as a baseline, the sample of each is the one just
/// read, whatever was held before, and no other sample changes.
pub proof fn law_baseline_is_the_last_reading(
    prev: Map<u32, PrevSample>,
    procs: Seq<ProcessReading>,
    now: u64,
    pid: u32,
)
    ensures
        forall|j: int|
            is_last_guest(procs, j) && (#[trigger] procs[j]).pid == pid ==> lookup(
                seeded(prev, procs, now),
                pid,
            ) == Some(PrevSample { counters: procs[j].counters(), at: now }),
        (forall|j: int|
            0 <= j < procs.len() && (#[trigger] procs[j]).is_guest() ==> procs[j].pid != pid)
            ==> lookup(seeded(prev, procs, now), pid) == lookup(prev, pid),
{
    assert forall|j: int| is_last_guest(procs, j) && (#[trigger] procs[j]).pid
        == pid implies lookup(seeded(prev, procs, now), pid) == Some(
        PrevSample { counters: procs[j].counters(), at: now },
    ) by {
        lemma_sample(prev, procs, now, j);
    }
    if forall|j: int| 0 <= j < procs.len() && (#[trigger] procs[j]).is_guest() ==> procs[j].pid != pid {
        lemma_sample_stays(prev, procs, now, pid);
    }
}

proof fn lemma_sample(prev: Map<u32, PrevSample>, procs: Seq<ProcessReading>, now: u64, j: int)
    requires
        is_last_guest(procs, j),
    ensures
        lookup(seeded(prev, procs, now), procs[j].pid) == Some(
            PrevSample { counters: procs[j].counters(), at: now },
        ),
    decreases procs.len(),
{
    let rest = procs.drop_last();
    let last = procs[procs.len() - 1];
    if j < rest.len() {
        assert(last.is_guest() ==> last.pid != procs[j].pid);
        assert forall|k: int| j < k < rest.len() && (#[trigger] rest[k]).is_guest() implies rest[k].pid
            != rest[j].pid by {
            assert(rest[k] == procs[k]);
        }
        lemma_sample(prev, rest, now, j);
    }
}

proof fn lemma_sample_stays(
    prev: Map<u32, PrevSample>,
    procs: Seq<ProcessReading>,
    now: u64,
    pid: u32,
)
    requires
        forall|j: int| 0 <= j < procs.len() && (#[trigger] procs[j]).is_guest() ==> procs[j].pid != pid,
    ensures
        lookup(seeded(prev, procs, now), pid) == lookup(prev, pid),
    decreases procs.len(),
{
    if procs.len() > 0 {
        let rest = procs.drop_last();
        let last = procs[procs.len() - 1];
        assert(last.is_guest() ==> last.pid != pid);
        assert forall|j: int| 0 <= j < rest.len() && (#[trigger] rest[j]).is_guest() implies rest[j].pid
            != pid by {
            assert(rest[j] == procs[j]);
        }
        lemma_sample_stays(prev, rest, now, pid);
    }
}

/// After a refresh the sample of every guest is the one just read, whatever was held before. The
/// sample of a process that is not listed any more stays as it was or is dropped.
pub proof fn law_refresh_takes_the_last_reading(
    s: State,
    host: HostReading,
    procs: Seq<ProcessReading>,
    now: u64,
    pid: u32,
)
    ensures
        forall|j: int|
            is_last_guest(procs, j) && (#[trigger] procs[j]).pid == pid ==> lookup(
                refreshed(s, host, procs, now).prev,
                pid,
            ) == Some(PrevSample { counters: procs[j].counters(), at: now }),
        (forall|j: int|
            0 <= j < procs.len() && (#[trigger] procs[j]).is_guest() ==> procs[j].pid != pid) ==> {
            let after = lookup(refreshed(s, host, procs, now).prev, pid);
            after is None || after == lookup(s.prev, pid)
        },
{
    law_baseline_is_the_last_reading(s.prev, procs, now, pid);
    let found = guests(s.prev, procs, now);
    assert forall|j: int| is_last_guest(procs, j) && (#[trigger] procs[j]).pid
        == pid implies pids(found).contains(pid) by {
        law_every_guest_is_listed(s.prev, procs, now, j);
        let i = choose|i: int| 0 <= i < found.len() && (#[trigger] found[i]).pid == procs[j].pid;
        assert(pids(found)[i] == pid);
    }
}

/// A process id that only one guest has is listed once, with the growth since the sample before.
proof fn lemma_sole_guest(
    prev: Map<u32, PrevSample>,
    procs: Seq<ProcessReading>,
    now: u64,
    j: int,
)
    requires
        is_sole_guest(procs, j),
    ensures
        guests(prev, procs, now).contains(procs[j].guest(lookup(prev, procs[j].pid), now)),
        forall|i: int|
            0 <= i < guests(prev, procs, now).len() && (#[trigger] guests(prev, procs, now)[i]).pid
                == procs[j].pid ==> guests(prev, procs, now)[i] == procs[j].guest(
                lookup(prev, procs[j].pid),
                now,
            ),
    decreases procs.len(),
{
    let rest = procs.drop_last();
    let before = guests(prev, rest, now);
    let all = guests(prev, procs, now);
    let own = procs[j].guest(lookup(prev, procs[j].pid), now);
    if j < rest.len() {
        assert(rest[j] == procs[j]);
        assert forall|k: int| 0 <= k < rest.len() && k != j && (#[trigger] rest[k]).is_guest() implies rest[k].pid
            != rest[j].pid by {
            assert(rest[k] == procs[k]);
        }
        lemma_sole_guest(prev, rest, now, j);
        let i = choose|i: int| 0 <= i < before.len() && before[i] == own;
        assert(all[i] == own);
        assert(procs[procs.len() - 1] == procs.last());
        assert forall|i: int| 0 <= i < all.len() && (#[trigger] all[i]).pid
            == procs[j].pid implies all[i] == own by {
            assert(i < before.len());
            assert(all[i] == before[i]);
        }
    } else {
        law_baseline_is_the_last_reading(prev, rest, now, procs[j].pid);
        assert forall|k: int| 0 <= k < rest.len() && (#[trigger] rest[k]).is_guest() implies rest[k].pid
            != procs[j].pid by {
            assert(rest[k] == procs[k]);
        }
        assert(all == before.push(own));
        assert(all[before.len() as int] == own);
        assert forall|i: int| 0 <= i < all.len() && (#[trigger] all[i]).pid
            == procs[j].pid implies all[i] == own by {
            if i < before.len() {
                law_only_guests_are_listed(prev, rest, now, i);
                assert(all[i] == before[i]);
            }
        }
    }
}

/// What a refresh lists of a process whose id only one guest has: there is one row of it at least,
/// and every row of it has the figures that were read.
pub proof fn law_refresh_lists_what_was_read(
    s: State,
    host: HostReading,
    procs: Seq<ProcessReading>,
    now: u64,
    j: int,
)
    requires
        is_sole_guest(procs, j),
    ensures
        pids(refreshed(s, host, procs, now).vms).contains(procs[j].pid),
        forall|k: int|
            0 <= k < refreshed(s, host, procs, now).vms.len() && (#[trigger] refreshed(
                s,
                host,
                procs,
                now,
            ).vms[k]).pid == procs[j].pid ==> {
                let g = refreshed(s, host, procs, now).vms[k];
                &&& g == procs[j].guest(lookup(s.prev, procs[j].pid), now)
                &&& g.cpu_pct == procs[j].cpu
                &&& g.mem_mb * 1048576 <= procs[j].memory < (g.mem_mb + 1) * 1048576
                &&& qemu::vm_name(text::strings(procs[j].args@)) matches Some(name) ==> g.name == name
                &&& qemu::vm_name(text::strings(procs[j].args@)) is None ==> g.name == "pid:"@
                    + figures::decimal(procs[j].pid as nat)
            },
{
    broadcast use vstd::seq_lib::group_to_multiset_ensures;

    let found = guests(s.prev, procs, now);
    let vms = refreshed(s, host, procs, now).vms;
    let own = procs[j].guest(lookup(s.prev, procs[j].pid), now);
    lemma_sole_guest(s.prev, procs, now, j);
    sort::law_every_sequence_can_be_sorted(found, s.sort_by);
    assert(found.to_multiset().count(own) > 0);
    assert(vms.contains(own));
    let i = choose|i: int| 0 <= i < vms.len() && vms[i] == own;
    assert(pids(vms)[i] == procs[j].pid);
    assert forall|k: int| 0 <= k < vms.len() && (#[trigger] vms[k]).pid
        == procs[j].pid implies vms[k] == own by {
        assert(vms.contains(vms[k]));
        assert(found.to_multiset().count(vms[k]) > 0);
        assert(found.contains(vms[k]));
        let i = choose|i: int| 0 <= i < found.len() && found[i] == vms[k];
        assert(found[i].pid == procs[j].pid);
    }
}

/// The throughput of a guest is the growth since the refresh before, over the time since then: what
/// was read earlier does not matter. A guest that has done nothing since the refresh before has no
/// throughput, whatever it did earlier; over one second the throughput is the growth itself.
pub proof fn law_throughput_is_that_of_the_last_tick(
    s: State,
    host1: HostReading,
    procs1: Seq<ProcessReading>,
    now1: u64,
    host2: HostReading,
    procs2: Seq<ProcessReading>,
    now2: u64,
    i: int,
    j: int,
    k: int,
)
    requires
        is_last_guest(procs1, i),
        is_sole_guest(procs2, j),
        procs1[i].pid == procs2[j].pid,
        0 <= k < refreshed(refreshed(s, host1, procs1, now1), host2, procs2, now2).vms.len(),
        refreshed(refreshed(s, host1, procs1, now1), host2, procs2, now2).vms[k].pid
            == procs2[j].pid,
    ensures
        ({
            let g = refreshed(refreshed(s, host1, procs1, now1), host2, procs2, now2).vms[k];
            let (a, b) = (procs1[i].counters(), procs2[j].counters());
            let t = rates::in_seconds(rates::elapsed_ns(now2, now1));
            &&& g.disk_read_bps == rates::rate(b.disk_read, a.disk_read, t)
            &&& g.disk_write_bps == rates::rate(b.disk_write, a.disk_write, t)
            &&& g.net_rx_bps == rates::rate(b.net_rx, a.net_rx, t)
            &&& g.net_tx_bps == rates::rate(b.net_tx, a.net_tx, t)
            &&& b.disk_read <= a.disk_read ==> g.disk_read_bps == 0
            &&& b.disk_write <= a.disk_write ==> g.disk_write_bps == 0
            &&& b.net_rx <= a.net_rx ==> g.net_rx_bps == 0
            &&& b.net_tx <= a.net_tx ==> g.net_tx_bps == 0
            &&& now2 == now1 + 1_000_000_000 ==> {
                &&& a.disk_read <= b.disk_read < a.disk_read + 0x20_0000_0000_0000
                    ==> g.disk_read_bps == b.disk_read - a.disk_read
                &&& a.disk_write <= b.disk_write < a.disk_write + 0x20_0000_0000_0000
                    ==> g.disk_write_bps == b.disk_write - a.disk_write
                &&& a.net_rx <= b.net_rx < a.net_rx + 0x20_0000_0000_0000 ==> g.net_rx_bps
                    == b.net_rx - a.net_rx
                &&& a.net_tx <= b.net_tx < a.net_tx + 0x20_0000_0000_0000 ==> g.net_tx_bps
                    == b.net_tx - a.net_tx
            }
        }),
{
    let mid = refreshed(s, host1, procs1, now1);
    law_refresh_takes_the_last_reading(s, host1, procs1, now1, procs1[i].pid);
    law_refresh_lists_what_was_read(mid, host2, procs2, now2, j);
    let (a, b) = (procs1[i].counters(), procs2[j].counters());
    if now2 == now1 + 1_000_000_000 {
        if a.disk_read <= b.disk_read < a.disk_read + 0x20_0000_0000_0000 {
            rates::law_one_second_gives_the_growth(b.disk_read, a.disk_read);
        }
        if a.disk_write <= b.disk_write < a.disk_write + 0x20_0000_0000_0000 {
            rates::law_one_second_gives_the_growth(b.disk_write, a.disk_write);
        }
        if a.net_rx <= b.net_rx < a.net_rx + 0x20_0000_0000_0000 {
            rates::law_one_second_gives_the_growth(b.net_rx, a.net_rx);
        }
        if a.net_tx <= b.net_tx < a.net_tx + 0x20_0000_0000_0000 {
            rates::law_one_second_gives_the_growth(b.net_tx, a.net_tx);
        }
    }
}

// ---------------------------------------------------------------------------
// Laws on vCPUs

/// Whether a thread is the only one with its id that runs a vCPU.
pub open spec fn is_sole_vcpu(ts: Seq<ThreadReading>, j: int) -> bool {
    &&& 0 <= j < ts.len()
    &&& ts[j].vcpu() is Some
    &&& forall|k: int|
        0 <= k < ts.len() && k != j && (#[trigger] ts[k]).vcpu() is Some ==> ts[k].tid != ts[j].tid
}

/// Whether a thread runs a vCPU and no later one with its id does.
pub open spec fn is_last_vcpu(ts: Seq<ThreadReading>, j: int) -> bool {
    &&& 0 <= j < ts.len()
    &&& ts[j].vcpu() is Some
    &&& forall|k: int|
        j < k < ts.len() && (#[trigger] ts[k]).vcpu() is Some ==> ts[k].tid != ts[j].tid
}

proof fn lemma_thread_samples(
    prev: Map<(u32, u32), ThreadPrevSample>,
    pid: u32,
    ts: Seq<ThreadReading>,
    now: u64,
    tid: u32,
)
    ensures
        forall|j: int|
            is_last_vcpu(ts, j) && (#[trigger] ts[j]).tid == tid ==> lookup(
                thread_seeded(prev, pid, ts, now),
                (pid, tid),
            ) == Some(ThreadPrevSample { wait_ns: ts[j].wait_ns(), at: now }),
        (forall|j: int|
            0 <= j < ts.len() && (#[trigger] ts[j]).vcpu() is Some ==> ts[j].tid != tid) ==> lookup(
            thread_seeded(prev, pid, ts, now),
            (pid, tid),
        ) == lookup(prev, (pid, tid)),
{
    assert forall|j: int| is_last_vcpu(ts, j) && (#[trigger] ts[j]).tid == tid implies lookup(
        thread_seeded(prev, pid, ts, now),
        (pid, tid),
    ) == Some(ThreadPrevSample { wait_ns: ts[j].wait_ns(), at: now }) by {
        lemma_thread_sample(prev, pid, ts, now, j);
    }
    if forall|j: int| 0 <= j < ts.len() && (#[trigger] ts[j]).vcpu() is Some ==> ts[j].tid != tid {
        lemma_thread_sample_stays(prev, pid, ts, now, tid);
    }
}

proof fn lemma_thread_sample(
    prev: Map<(u32, u32), ThreadPrevSample>,
    pid: u32,
    ts: Seq<ThreadReading>,
    now: u64,
    j: int,
)
    requires
        is_last_vcpu(ts, j),
    ensures
        lookup(thread_seeded(prev, pid, ts, now), (pid, ts[j].tid)) == Some(
            ThreadPrevSample { wait_ns: ts[j].wait_ns(), at: now },
        ),
    decreases ts.len(),
{
    let rest = ts.drop_last();
    let last = ts[ts.len() - 1];
    if j < rest.len() {
        assert(last.vcpu() is Some ==> last.tid != ts[j].tid);
        assert forall|k: int| j < k < rest.len() && (#[trigger] rest[k]).vcpu() is Some implies rest[k].tid
            != rest[j].tid by {
            assert(rest[k] == ts[k]);
        }
        lemma_thread_sample(prev, pid, rest, now, j);
    }
}

proof fn lemma_thread_sample_stays(
    prev: Map<(u32, u32), ThreadPrevSample>,
    pid: u32,
    ts: Seq<ThreadReading>,
    now: u64,
    tid: u32,
)
    requires
        forall|j: int| 0 <= j < ts.len() && (#[trigger] ts[j]).vcpu() is Some ==> ts[j].tid != tid,
    ensures
        lookup(thread_seeded(prev, pid, ts, now), (pid, tid)) == lookup(prev, (pid, tid)),
    decreases ts.len(),
{
    if ts.len() > 0 {
        let rest = ts.drop_last();
        let last = ts[ts.len() - 1];
        assert(last.vcpu() is Some ==> last.tid != tid);
        assert forall|j: int| 0 <= j < rest.len() && (#[trigger] rest[j]).vcpu() is Some implies rest[j].tid
            != tid by {
            assert(rest[j] == ts[j]);
        }
        lemma_thread_sample_stays(prev, pid, rest, now, tid);
    }
}

proof fn lemma_every_vcpu_is_found(
    prev: Map<(u32, u32), ThreadPrevSample>,
    pid: u32,
    ts: Seq<ThreadReading>,
    cpu_to_node: Map<u32, u32>,
    now: u64,
    tid: u32,
)
    ensures
        tids(vcpus(prev, pid, ts, cpu_to_node, now)).contains(tid) <==> exists|j: int|
            0 <= j < ts.len() && (#[trigger] ts[j]).vcpu() is Some && ts[j].tid == tid,
    decreases ts.len(),
{
    let all = tids(vcpus(prev, pid, ts, cpu_to_node, now));
    if ts.len() > 0 {
        let rest = ts.drop_last();
        let before = tids(vcpus(prev, pid, rest, cpu_to_node, now));
        lemma_every_vcpu_is_found(prev, pid, rest, cpu_to_node, now, tid);
        assert(ts[ts.len() - 1] == ts.last());
        if ts.last().vcpu() is Some {
            assert(all =~= before.push(ts.last().tid));
            assert(all[before.len() as int] == ts.last().tid);
        } else {
            assert(all =~= before);
        }
        if all.contains(tid) {
            let i = choose|i: int| 0 <= i < all.len() && all[i] == tid;
            if i < before.len() {
                assert(before[i] == tid);
                assert(before.contains(tid));
                let j = choose|j: int|
                    0 <= j < rest.len() && (#[trigger] rest[j]).vcpu() is Some && rest[j].tid == tid;
                assert(ts[j] == rest[j]);
            }
        }
        if exists|j: int| 0 <= j < ts.len() && (#[trigger] ts[j]).vcpu() is Some && ts[j].tid == tid {
            let j = choose|j: int|
                0 <= j < ts.len() && (#[trigger] ts[j]).vcpu() is Some && ts[j].tid == tid;
            if j < rest.len() {
                assert(rest[j] == ts[j]);
                assert(before.contains(tid));
                let i = choose|i: int| 0 <= i < before.len() && before[i] == tid;
                assert(all[i] == tid);
            }
        }
    } else {
        assert(all =~= Seq::<u32>::empty());
    }
}

/// After the detail of a guest was read, the sample of each of its vCPU threads is the one just read,
/// whether or not one was held before. Its other threads have none.
pub proof fn law_detail_takes_the_last_reading(
    t: State,
    s: State,
    r: DetailReading,
    now: u64,
    pid: u32,
    tid: u32,
)
    requires
        is_detailed(t, s, r, now),
        selected_guest(s) == Some(pid),
    ensures
        forall|j: int|
            is_last_vcpu(r.threads@, j) && (#[trigger] r.threads@[j]).tid == tid ==> lookup(
                t.prev_thread,
                (pid, tid),
            ) == Some(ThreadPrevSample { wait_ns: r.threads@[j].wait_ns(), at: now }),
        (forall|j: int|
            0 <= j < r.threads@.len() && (#[trigger] r.threads@[j]).vcpu() is Some
                ==> r.threads@[j].tid != tid) ==> lookup(t.prev_thread, (pid, tid)) is None,
{
    lemma_thread_samples(s.prev_thread, pid, r.threads@, now, tid);
    lemma_every_vcpu_is_found(s.prev_thread, pid, r.threads@, s.cpu_to_node, now, tid);
}

proof fn lemma_sole_vcpu(
    prev: Map<(u32, u32), ThreadPrevSample>,
    pid: u32,
    ts: Seq<ThreadReading>,
    cpu_to_node: Map<u32, u32>,
    now: u64,
    j: int,
)
    requires
        is_sole_vcpu(ts, j),
    ensures
        ({
            let all = vcpus(prev, pid, ts, cpu_to_node, now);
            let own = vcpu_of(ts[j], pid, prev, cpu_to_node, now)->0;
            &&& all.contains(own)
            &&& forall|i: int|
                0 <= i < all.len() && (#[trigger] all[i]).tid == ts[j].tid ==> all[i] == own
        }),
    decreases ts.len(),
{
    let rest = ts.drop_last();
    let before = vcpus(prev, pid, rest, cpu_to_node, now);
    let all = vcpus(prev, pid, ts, cpu_to_node, now);
    let own = vcpu_of(ts[j], pid, prev, cpu_to_node, now)->0;
    assert(ts[ts.len() - 1] == ts.last());
    if j < rest.len() {
        assert(rest[j] == ts[j]);
        assert forall|k: int| 0 <= k < rest.len() && k != j && (#[trigger] rest[k]).vcpu() is Some implies rest[k].tid
            != rest[j].tid by {
            assert(rest[k] == ts[k]);
        }
        lemma_sole_vcpu(prev, pid, rest, cpu_to_node, now, j);
        let i = choose|i: int| 0 <= i < before.len() && before[i] == own;
        assert(all[i] == own);
        assert forall|i: int| 0 <= i < all.len() && (#[trigger] all[i]).tid == ts[j].tid implies all[i]
            == own by {
            assert(i < before.len());
            assert(all[i] == before[i]);
        }
    } else {
        lemma_thread_samples(prev, pid, rest, now, ts[j].tid);
        lemma_every_vcpu_is_found(prev, pid, rest, cpu_to_node, now, ts[j].tid);
        assert forall|k: int| 0 <= k < rest.len() && (#[trigger] rest[k]).vcpu() is Some implies rest[k].tid
            != ts[j].tid by {
            assert(rest[k] == ts[k]);
        }
        assert(all == before.push(own));
        assert(all[before.len() as int] == own);
        assert forall|i: int| 0 <= i < all.len() && (#[trigger] all[i]).tid == ts[j].tid implies all[i]
            == own by {
            if i < before.len() {
                assert(tids(before)[i] == ts[j].tid);
                assert(tids(before).contains(ts[j].tid));
            }
        }
    }
}

/// What the detail lists of a thread that runs a vCPU: there is one row of it at least, and every
/// row of it has the index in the thread's name, the CPU in its status and the node of this CPU. A
/// thread that runs no vCPU has no row.
pub proof fn law_detail_lists_what_was_read(
    d: model::Detail,
    s: State,
    pid: u32,
    r: DetailReading,
    now: u64,
    j: int,
)
    requires
        is_detail(d, s, pid, r, now),
        is_sole_vcpu(r.threads@, j),
    ensures
        tids(d.vcpus).contains(r.threads@[j].tid),
        forall|k: int|
            0 <= k < d.vcpus.len() && (#[trigger] d.vcpus[k]).tid == r.threads@[j].tid ==> {
                let v = d.vcpus[k];
                &&& Some(v) == vcpu_of(r.threads@[j], pid, s.prev_thread, s.cpu_to_node, now)
                &&& threads::vcpu_index(r.threads@[j].comm->0@) == Some(v.vcpu_index)
                &&& threads::stat_processor(r.threads@[j].stat->0@) == Some(v.cur_cpu)
                &&& v.numa_node == lookup(s.cpu_to_node, v.cur_cpu)
            },
        forall|tid: u32|
            (forall|i: int|
                0 <= i < r.threads@.len() && (#[trigger] r.threads@[i]).vcpu() is Some
                    ==> r.threads@[i].tid != tid) ==> !(#[trigger] tids(d.vcpus).contains(tid)),
{
    broadcast use vstd::seq_lib::group_to_multiset_ensures;

    let ts = r.threads@;
    let found = vcpus(s.prev_thread, pid, ts, s.cpu_to_node, now);
    let own = vcpu_of(ts[j], pid, s.prev_thread, s.cpu_to_node, now)->0;
    lemma_sole_vcpu(s.prev_thread, pid, ts, s.cpu_to_node, now, j);
    sort::law_every_sequence_can_be_sorted(found, ByIndex);
    assert(found.to_multiset().count(own) > 0);
    assert(d.vcpus.contains(own));
    let i = choose|i: int| 0 <= i < d.vcpus.len() && d.vcpus[i] == own;
    assert(tids(d.vcpus)[i] == ts[j].tid);
    assert forall|k: int| 0 <= k < d.vcpus.len() implies found.contains(#[trigger] d.vcpus[k]) by {
        assert(d.vcpus.contains(d.vcpus[k]));
        assert(found.to_multiset().count(d.vcpus[k]) > 0);
    }
    assert forall|k: int| 0 <= k < d.vcpus.len() && (#[trigger] d.vcpus[k]).tid
        == ts[j].tid implies d.vcpus[k] == own by {
        let i = choose|i: int| 0 <= i < found.len() && found[i] == d.vcpus[k];
        assert(found[i].tid == ts[j].tid);
    }
    assert forall|tid: u32|
        (forall|i: int|
            0 <= i < ts.len() && (#[trigger] ts[i]).vcpu() is Some ==> ts[i].tid != tid) implies !(
    #[trigger] tids(d.vcpus).contains(tid)) by {
        lemma_every_vcpu_is_found(s.prev_thread, pid, ts, s.cpu_to_node, now, tid);
        if tids(d.vcpus).contains(tid) {
            let k = choose|k: int| 0 <= k < tids(d.vcpus).len() && tids(d.vcpus)[k] == tid;
            assert(found.contains(d.vcpus[k]));
            let i = choose|i: int| 0 <= i < found.len() && found[i] == d.vcpus[k];
            assert(tids(found)[i] == tid);
            assert(tids(found).contains(tid));
        }
    }
}

/// The waiting time of a vCPU is that since the reading before, over the time since then: what was
/// read earlier does not matter. A vCPU whose thread has not waited since the reading before waits
/// no time, whatever it did earlier.
pub proof fn law_waiting_is_that_since_the_last_reading(
    s1: State,
    r1: DetailReading,
    now1: u64,
    s2: State,
    r2: DetailReading,
    now2: u64,
    pid: u32,
    d: model::Detail,
    i: int,
    j: int,
    k: int,
)
    requires
        is_detailed(s2, s1, r1, now1),
        selected_guest(s1) == Some(pid),
        is_detail(d, s2, pid, r2, now2),
        is_last_vcpu(r1.threads@, i),
        is_sole_vcpu(r2.threads@, j),
        r1.threads@[i].tid == r2.threads@[j].tid,
        0 <= k < d.vcpus.len(),
        d.vcpus[k].tid == r2.threads@[j].tid,
    ensures
        ({
            let (a, b) = (r1.threads@[i].wait_ns(), r2.threads@[j].wait_ns());
            let t = rates::in_seconds(rates::elapsed_ns(now2, now1));
            &&& d.vcpus[k].wait_pct == rates::wait_share(rates::rate(b, a, t))
            &&& b <= a ==> d.vcpus[k].wait_pct.m == 0
            &&& now2 == now1 + 1_000_000_000 && a <= b < a + 0x20_0000_0000_0000
                ==> d.vcpus[k].wait_pct == rates::wait_share((b - a) as u64)
        }),
{
    law_detail_takes_the_last_reading(s2, s1, r1, now1, pid, r1.threads@[i].tid);
    law_detail_lists_what_was_read(d, s2, pid, r2, now2, j);
    let (a, b) = (r1.threads@[i].wait_ns(), r2.threads@[j].wait_ns());
    if b <= a {
        rates::law_no_wait_no_share();
    }
    if now2 == now1 + 1_000_000_000 && a <= b < a + 0x20_0000_0000_0000 {
        rates::law_one_second_gives_the_growth(b, a);
    }
}

/// A vCPU thread that is read for the first time waits no time yet.
pub proof fn law_new_vcpu_does_not_wait(
    d: model::Detail,
    s: State,
    pid: u32,
    r: DetailReading,
    now: u64,
    j: int,
    k: int,
)
    requires
        is_detail(d, s, pid, r, now),
        is_sole_vcpu(r.threads@, j),
        !s.prev_thread.contains_key((pid, r.threads@[j].tid)),
        0 <= k < d.vcpus.len(),
        d.vcpus[k].tid == r.threads@[j].tid,
    ensures
        d.vcpus[k].wait_pct.m == 0,
{
    law_detail_lists_what_was_read(d, s, pid, r, now, j);
}

// ---------------------------------------------------------------------------
// Laws on the list and on keys

/// Whether the guests are listed in the order that is named: the largest figure first.
pub open spec fn is_listed_by(vms: Seq<model::Guest>, by: SortBy) -> bool {
    forall|i: int, j: int|
        0 <= i <= j < vms.len() ==> match by {
            SortBy::Cpu => (#[trigger] vms[i]).cpu_pct.rank() >= (#[trigger] vms[j]).cpu_pct.rank(),
            SortBy::DiskIo => vms[i].disk_read_bps + vms[i].disk_write_bps >= vms[j].disk_read_bps
                + vms[j].disk_write_bps,
            SortBy::NetIo => vms[i].net_rx_bps + vms[i].net_tx_bps >= vms[j].net_rx_bps
                + vms[j].net_tx_bps,
            SortBy::Memory => vms[i].mem_mb >= vms[j].mem_mb,
        }
}

proof fn lemma_listed_by(vms: Seq<model::Guest>, by: SortBy)
    ensures
        sort::is_descending(vms, by) <==> is_listed_by(vms, by),
{
    if sort::is_descending(vms, by) {
        assert forall|i: int, j: int| 0 <= i <= j < vms.len() implies (#[trigger] vms[i]).rank(by)
            >= (#[trigger] vms[j]).rank(by) by {}
    }
}

/// After a refresh the guests are listed by load, by reading and writing together, by receiving and
/// transmitting together or by memory, as was chosen, the largest first. There are as many as there
/// are processes that run a guest.
pub proof fn law_refresh_lists_the_largest_first(
    s: State,
    host: HostReading,
    procs: Seq<ProcessReading>,
    now: u64,
)
    ensures
        is_listed_by(refreshed(s, host, procs, now).vms, s.sort_by),
        refreshed(s, host, procs, now).vms.len() == procs.filter(
            |p: ProcessReading| p.is_guest(),
        ).len(),
{
    let found = guests(s.prev, procs, now);
    sort::law_every_sequence_can_be_sorted(found, s.sort_by);
    lemma_listed_by(sort::sorted(found, s.sort_by), s.sort_by);
    lemma_number_of_guests(s.prev, procs, now);
}

proof fn lemma_number_of_guests(prev: Map<u32, PrevSample>, procs: Seq<ProcessReading>, now: u64)
    ensures
        guests(prev, procs, now).len() == procs.filter(|p: ProcessReading| p.is_guest()).len(),
    decreases procs.len(),
{
    let pred = |p: ProcessReading| p.is_guest();
    if procs.len() > 0 {
        lemma_number_of_guests(prev, procs.drop_last(), now);
        assert(procs =~= procs.drop_last().push(procs.last()));
        procs.drop_last().lemma_filter_push(procs.last(), pred);
    } else {
        assert(procs.filter(pred).len() == 0) by {
            reveal(Seq::filter);
        }
    }
}

/// A refresh changes the guests, what is known of them and the host, and the selection only where
/// there are fewer guests than before: it then goes to the last one.
pub proof fn law_refresh_keeps_the_rest(
    s: State,
    host: HostReading,
    procs: Seq<ProcessReading>,
    now: u64,
)
    ensures
        ({
            let t = refreshed(s, host, procs, now);
            let n = t.vms.len() as int;
            &&& t.sort_by == s.sort_by && t.should_quit == s.should_quit && t.expanded == s.expanded
            &&& t.detail == s.detail && t.cpu_to_node == s.cpu_to_node && t.feed == s.feed
            &&& s.selected < n ==> t.selected == s.selected
            &&& s.selected >= n && n > 0 ==> t.selected == n - 1
            &&& n == 0 && s.selected >= 0 ==> t.selected == 0
            &&& n > 0 ==> t.cursor == Some(t.selected)
            &&& n == 0 ==> t.cursor is None
            &&& t.host.mem_used_mb * 1048576 <= host.used < (t.host.mem_used_mb + 1) * 1048576
            &&& t.host.mem_total_mb * 1048576 <= host.total < (t.host.mem_total_mb + 1) * 1048576
            &&& t.host.cpu_pct == single::mean(host.cpus@)
        }),
{
    sort::law_every_sequence_can_be_sorted(guests(s.prev, procs, now), s.sort_by);
}

/// After a refresh the state and the running time of every guest are those just read, and other
/// processes have none. The samples of threads of listed guests stay as they are.
pub proof fn law_refresh_takes_the_lives_over(
    s: State,
    host: HostReading,
    procs: Seq<ProcessReading>,
    now: u64,
    pid: u32,
    tid: u32,
)
    ensures
        forall|j: int|
            is_last_guest(procs, j) && (#[trigger] procs[j]).pid == pid ==> {
                let t = refreshed(s, host, procs, now);
                &&& lookup(t.lives, pid) == Some(
                    GuestLife { state: procs[j].status.guest(), uptime_secs: procs[j].run_time },
                )
                &&& lookup(t.prev_thread, (pid, tid)) == lookup(s.prev_thread, (pid, tid))
            },
        (forall|j: int|
            0 <= j < procs.len() && (#[trigger] procs[j]).is_guest() ==> procs[j].pid != pid) ==> {
            let t = refreshed(s, host, procs, now);
            &&& lookup(t.lives, pid) is None
            &&& lookup(t.prev_thread, (pid, tid)) is None
        },
{
    lemma_lives(procs, pid);
    let found = guests(s.prev, procs, now);
    assert forall|j: int| is_last_guest(procs, j) && (#[trigger] procs[j]).pid
        == pid implies pids(found).contains(pid) by {
        law_every_guest_is_listed(s.prev, procs, now, j);
        let i = choose|i: int| 0 <= i < found.len() && (#[trigger] found[i]).pid == procs[j].pid;
        assert(pids(found)[i] == pid);
    }
    if forall|j: int| 0 <= j < procs.len() && (#[trigger] procs[j]).is_guest() ==> procs[j].pid != pid {
        if pids(found).contains(pid) {
            let i = choose|i: int| 0 <= i < pids(found).len() && pids(found)[i] == pid;
            law_only_guests_are_listed(s.prev, procs, now, i);
        }
    }
}

proof fn lemma_lives(procs: Seq<ProcessReading>, pid: u32)
    ensures
        forall|j: int|
            is_last_guest(procs, j) && (#[trigger] procs[j]).pid == pid ==> lookup(lives(procs), pid)
                == Some(
                GuestLife { state: procs[j].status.guest(), uptime_secs: procs[j].run_time },
            ),
        (forall|j: int|
            0 <= j < procs.len() && (#[trigger] procs[j]).is_guest() ==> procs[j].pid != pid)
            ==> lookup(lives(procs), pid) is None,
{
    assert forall|j: int| is_last_guest(procs, j) && (#[trigger] procs[j]).pid
        == pid implies lookup(lives(procs), pid) == Some(
        GuestLife { state: procs[j].status.guest(), uptime_secs: procs[j].run_time },
    ) by {
        lemma_life(procs, j);
    }
    if forall|j: int| 0 <= j < procs.len() && (#[trigger] procs[j]).is_guest() ==> procs[j].pid != pid {
        lemma_no_life(procs, pid);
    }
}

proof fn lemma_life(procs: Seq<ProcessReading>, j: int)
    requires
        is_last_guest(procs, j),
    ensures
        lookup(lives(procs), procs[j].pid) == Some(
            GuestLife { state: procs[j].status.guest(), uptime_secs: procs[j].run_time },
        ),
    decreases procs.len(),
{
    let rest = procs.drop_last();
    let last = procs[procs.len() - 1];
    if j < rest.len() {
        assert(last.is_guest() ==> last.pid != procs[j].pid);
        assert forall|k: int| j < k < rest.len() && (#[trigger] rest[k]).is_guest() implies rest[k].pid
            != rest[j].pid by {
            assert(rest[k] == procs[k]);
        }
        lemma_life(rest, j);
    }
}

proof fn lemma_no_life(procs: Seq<ProcessReading>, pid: u32)
    requires
        forall|j: int| 0 <= j < procs.len() && (#[trigger] procs[j]).is_guest() ==> procs[j].pid != pid,
    ensures
        lookup(lives(procs), pid) is None,
    decreases procs.len(),
{
    if procs.len() > 0 {
        let rest = procs.drop_last();
        let last = procs[procs.len() - 1];
        assert(last.is_guest() ==> last.pid != pid);
        assert forall|j: int| 0 <= j < rest.len() && (#[trigger] rest[j]).is_guest() implies rest[j].pid
            != pid by {
            assert(rest[j] == procs[j]);
        }
        lemma_no_life(rest, pid);
    }
}

/// The sample of a process that is not listed any more is dropped only where there are more than
/// twice as many samples as guests.
pub proof fn law_samples_stay_while_there_are_few(
    s: State,
    host: HostReading,
    procs: Seq<ProcessReading>,
    now: u64,
    pid: u32,
)
    requires
        seeded(s.prev, procs, now).dom().len() <= 2 * refreshed(s, host, procs, now).vms.len(),
        forall|j: int| 0 <= j < procs.len() && (#[trigger] procs[j]).is_guest() ==> procs[j].pid != pid,
    ensures
        lookup(refreshed(s, host, procs, now).prev, pid) == lookup(s.prev, pid),
{
    sort::law_every_sequence_can_be_sorted(guests(s.prev, procs, now), s.sort_by);
    law_baseline_is_the_last_reading(s.prev, procs, now, pid);
}

/// The keys `c`, `d`, `n` and `m`, as capitals too, list the same guests by load, disk, network and
/// memory, the largest first. The selected row stays, and nothing has to be read.
pub proof fn law_sort_keys(s: State, key: Key, by: SortBy)
    requires
        is_listed_by(s.vms, s.sort_by),
        match by {
            SortBy::Cpu => key == Key::Char('c') || key == Key::Char('C'),
            SortBy::DiskIo => key == Key::Char('d') || key == Key::Char('D'),
            SortBy::NetIo => key == Key::Char('n') || key == Key::Char('N'),
            SortBy::Memory => key == Key::Char('m') || key == Key::Char('M'),
        },
    ensures
        ({
            let (t, read) = pressed(s, key);
            &&& t.sort_by == by
            &&& is_listed_by(t.vms, by)
            &&& t.vms.to_multiset() == s.vms.to_multiset()
            &&& t == State { sort_by: t.sort_by, vms: t.vms, ..s }
            &&& !read
        }),
{
    sort::law_every_sequence_can_be_sorted(s.vms, by);
    lemma_listed_by(sort::sorted(s.vms, by), by);
}

/// The arrow keys select the next and the previous guest; after the last one comes the first, and
/// before the first the last. The detail has to be read anew where it is open and another guest is
/// selected.
pub proof fn law_arrow_keys(s: State)
    requires
        valid(s),
        s.vms.len() > 0,
    ensures
        ({
            let (t, read) = pressed(s, Key::Down);
            &&& t.selected == if s.selected + 1 < s.vms.len() {
                s.selected + 1
            } else {
                0
            }
            &&& t == State { selected: t.selected, cursor: Some(t.selected), ..s }
            &&& read == (s.expanded && s.vms.len() > 1)
        }),
        ({
            let (t, read) = pressed(s, Key::Up);
            &&& t.selected == if s.selected > 0 {
                s.selected - 1
            } else {
                s.vms.len() - 1
            }
            &&& t == State { selected: t.selected, cursor: Some(t.selected), ..s }
            &&& read == (s.expanded && s.vms.len() > 1)
        }),
{
    lemma_wrap(s.selected, s.vms.len() as int);
    let down = pressed(s, Key::Down).0;
    let up = pressed(s, Key::Up).0;
    assert(down =~= State { selected: down.selected, cursor: Some(down.selected), ..s });
    assert(up =~= State { selected: up.selected, cursor: Some(up.selected), ..s });
}

/// Enter and Tab open the detail view, which then has to be read, and close it, which drops the
/// detail. Without guests they do nothing, and neither do the arrow keys.
pub proof fn law_enter_and_tab(s: State)
    ensures
        pressed(s, Key::Tab) == pressed(s, Key::Enter),
        s.vms.len() > 0 && !s.expanded ==> pressed(s, Key::Enter) == (
            State { expanded: true, ..s },
            true,
        ),
        s.vms.len() > 0 && s.expanded ==> pressed(s, Key::Enter) == (
            State { expanded: false, detail: None, ..s },
            false,
        ),
        s.vms.len() == 0 ==> pressed(s, Key::Enter) == (s, false) && pressed(s, Key::Up) == (s, false)
            && pressed(s, Key::Down) == (s, false),
{
}

/// `q`, `Q` and Esc end the monitor and change nothing else; a key without a meaning changes nothing.
pub proof fn law_other_keys(s: State, c: char)
    ensures
        pressed(s, Key::Esc) == (State { should_quit: true, ..s }, false),
        pressed(s, Key::Char('q')) == pressed(s, Key::Esc),
        pressed(s, Key::Char('Q')) == pressed(s, Key::Esc),
        pressed(s, Key::Other) == (s, false),
        c != 'q' && c != 'Q' && c != 'c' && c != 'C' && c != 'd' && c != 'D' && c != 'n' && c != 'N' && c
            != 'm' && c != 'M' ==> pressed(s, Key::Char(c)) == (s, false),
{
}

/// A monitor starts without guests, sorted by load, with the detail view closed and without samples.
pub proof fn law_start(cpu_to_node: Map<u32, u32>)
    ensures
        ({
            let s = initial(cpu_to_node);
            &&& s.vms.len() == 0 && s.sort_by == SortBy::Cpu && !s.should_quit && !s.expanded
            &&& s.detail is None && s.selected == 0 && s.cpu_to_node == cpu_to_node
            &&& s.prev == Map::<u32, PrevSample>::empty()
            &&& s.prev_thread == Map::<(u32, u32), ThreadPrevSample>::empty()
            &&& s.lives == Map::<u32, GuestLife>::empty()
            &&& s.feed.domains.len() == 0 && !s.feed.disabled
        }),
{
}

/// Reading the detail keeps all but the detail and the samples of threads. Whether the placement of
/// the memory may be read is told, and there is none where it could not be read.
pub proof fn law_detail_changes_nothing_else(t: State, s: State, r: DetailReading, now: u64)
    requires
        is_detailed(t, s, r, now),
    ensures
        t == (State { detail: t.detail, prev_thread: t.prev_thread, ..s }),
        t.detail is Some <==> 0 <= s.selected < s.vms.len(),
        t.detail matches Some(d) ==> {
            &&& d.denied <==> r.numa is Denied
            &&& !(r.numa is Content) ==> d.mem_by_node.len() == 0
        },
{
    assert(t =~= State { detail: t.detail, prev_thread: t.prev_thread, ..s });
}

/// The throughput of a guest times the time since the refresh before is the growth since then, to
/// less than one byte per second and what double precision loses: one part in 2 to the power of 48.
/// The time is at least a millisecond.
pub proof fn law_throughput_is_growth_over_time(
    s: State,
    host1: HostReading,
    procs1: Seq<ProcessReading>,
    now1: u64,
    host2: HostReading,
    procs2: Seq<ProcessReading>,
    now2: u64,
    i: int,
    j: int,
    k: int,
)
    requires
        is_last_guest(procs1, i),
        is_sole_guest(procs2, j),
        procs1[i].pid == procs2[j].pid,
        now1 + 1_000_000 <= now2,
        0 <= k < refreshed(refreshed(s, host1, procs1, now1), host2, procs2, now2).vms.len(),
        refreshed(refreshed(s, host1, procs1, now1), host2, procs2, now2).vms[k].pid
            == procs2[j].pid,
    ensures
        ({
            let g = refreshed(refreshed(s, host1, procs1, now1), host2, procs2, now2).vms[k];
            let (a, b) = (procs1[i].counters(), procs2[j].counters());
            &&& is_growth_over_time(g.disk_read_bps, a.disk_read, b.disk_read, now1, now2)
            &&& is_growth_over_time(g.disk_write_bps, a.disk_write, b.disk_write, now1, now2)
            &&& is_growth_over_time(g.net_rx_bps, a.net_rx, b.net_rx, now1, now2)
            &&& is_growth_over_time(g.net_tx_bps, a.net_tx, b.net_tx, now1, now2)
        }),
{
    law_throughput_is_that_of_the_last_tick(
        s,
        host1,
        procs1,
        now1,
        host2,
        procs2,
        now2,
        i,
        j,
        k,
    );
    let (a, b) = (procs1[i].counters(), procs2[j].counters());
    let ns = (now2 - now1) as nat;
    if a.disk_read <= b.disk_read {
        rates::law_rate_is_growth_over_time(b.disk_read, a.disk_read, ns);
    }
    if a.disk_write <= b.disk_write {
        rates::law_rate_is_growth_over_time(b.disk_write, a.disk_write, ns);
    }
    if a.net_rx <= b.net_rx {
        rates::law_rate_is_growth_over_time(b.net_rx, a.net_rx, ns);
    }
    if a.net_tx <= b.net_tx {
        rates::law_rate_is_growth_over_time(b.net_tx, a.net_tx, ns);
    }
}

/// Whether a rate is the growth of a counter from one time to another, per second and rounded down,
/// to one part in 2 to the power of 48. A counter that has gone back has no rate.
pub open spec fn is_growth_over_time(bps: u64, before: u64, after: u64, then: u64, now: u64) -> bool {
    let k: int = 0x1_0000_0000_0000;
    let ns = now - then;
    if after < before {
        bps == 0
    } else {
        &&& bps * ns * k <= (after - before) * 1_000_000_000 * (k + 1)
        &&& bps < u64::MAX ==> (after - before) * 1_000_000_000 * k < (bps + 1) * ns * (k + 1)
    }
}

/// The first refresh after the counters of all guests were taken over as a baseline gives the growth
/// since then.
pub proof fn law_first_refresh_gives_the_growth_since_the_baseline(
    s: State,
    procs1: Seq<ProcessReading>,
    now1: u64,
    host: HostReading,
    procs2: Seq<ProcessReading>,
    now2: u64,
    i: int,
    j: int,
    k: int,
)
    requires
        is_last_guest(procs1, i),
        is_sole_guest(procs2, j),
        procs1[i].pid == procs2[j].pid,
        0 <= k < refreshed(
            State { prev: seeded(s.prev, procs1, now1), ..s },
            host,
            procs2,
            now2,
        ).vms.len(),
        refreshed(State { prev: seeded(s.prev, procs1, now1), ..s }, host, procs2, now2).vms[k].pid
            == procs2[j].pid,
    ensures
        ({
            let primed = State { prev: seeded(s.prev, procs1, now1), ..s };
            let g = refreshed(primed, host, procs2, now2).vms[k];
            let (a, b) = (procs1[i].counters(), procs2[j].counters());
            let t = rates::in_seconds(rates::elapsed_ns(now2, now1));
            &&& g.disk_read_bps == rates::rate(b.disk_read, a.disk_read, t)
            &&& g.disk_write_bps == rates::rate(b.disk_write, a.disk_write, t)
            &&& g.net_rx_bps == rates::rate(b.net_rx, a.net_rx, t)
            &&& g.net_tx_bps == rates::rate(b.net_tx, a.net_tx, t)
        }),
{
    let primed = State { prev: seeded(s.prev, procs1, now1), ..s };
    law_baseline_is_the_last_reading(s.prev, procs1, now1, procs1[i].pid);
    law_refresh_lists_what_was_read(primed, host, procs2, now2, j);
}

/// The placement of a guest's memory is read from the content of its file: every node with its part of
/// the pages.
pub proof fn law_detail_gives_the_placement(
    d: model::Detail,
    s: State,
    pid: u32,
    r: DetailReading,
    now: u64,
    i: int,
)
    requires
        is_detail(d, s, pid, r, now),
        r.wf(),
        r.numa is Content,
        0 <= i < d.mem_by_node.len(),
    ensures
        ({
            let tokens = text::words_of(r.numa->Content_0@);
            let (a, b) = float::at_scale(d.mem_by_node[i].1.m, 1, -d.mem_by_node[i].1.e);
            &&& topology::mentioned(tokens, d.mem_by_node[i].0)
            &&& float::is_near(
                a * topology::pages_total(tokens),
                (100 * topology::pages_on(tokens, d.mem_by_node[i].0)) * b,
                0x40_0000,
            )
        }),
{
    let tokens = text::words_of(r.numa->Content_0@);
    placement::law_nodes_are_listed_with_their_part(
        d.mem_by_node,
        tokens,
        i,
        i,
        d.mem_by_node[i].0,
    );
}

/// The guests are refreshed every second and the domains are polled every five.
pub proof fn law_pace()
    ensures
        TICK_NS == 1_000_000_000,
        POLL_NS == 5 * TICK_NS,
{
}

/// What a process tells of its guest: it is one by its name and its path, its counters are those of
/// the two files for the interfaces of its descriptors and arguments, and its sample holds both these
/// and the time.
pub proof fn law_readings_of_a_process(p: ProcessReading, now: u64)
    ensures
        p.is_guest() <==> qemu::runs_guest(p.name@, qemu::string_opt(p.exe)),
        p.exe is None ==> qemu::string_opt(p.exe) is None,
        p.exe matches Some(path) ==> qemu::string_opt(p.exe) == Some(path@),
        p.counters() == counters::counters_of(
            qemu::string_opt(p.io),
            qemu::string_opt(p.net_dev),
            qemu::guest_ifaces(p.fds@, text::strings(p.args@)),
        ),
        p.sample(now).counters == p.counters() && p.sample(now).at == now,
{
}

/// What a thread tells of its vCPU: the index in its name and the CPU in its status, where both could
/// be read and hold one; and the time that it has waited, or none where that could not be read.
pub proof fn law_readings_of_a_thread(t: ThreadReading)
    ensures
        t.vcpu() is Some <==> t.comm is Some && t.stat is Some && threads::vcpu_index(
            t.comm->0@,
        ) is Some && threads::stat_processor(t.stat->0@) is Some,
        t.vcpu() matches Some((index, cpu)) ==> threads::vcpu_index(t.comm->0@) == Some(index)
            && threads::stat_processor(t.stat->0@) == Some(cpu),
        t.schedstat is None ==> t.wait_ns() == 0,
        t.schedstat matches Some(content) ==> match threads::schedstat_wait(content@) {
            Some(ns) => t.wait_ns() == ns,
            None => t.wait_ns() == 0,
        },
{
}

/// The selected guest is the one in the marked row.
pub proof fn law_selected_guest_is_marked(s: State)
    requires
        valid(s),
    ensures
        s.vms.len() > 0 ==> s.cursor == Some(s.selected) && selected_guest(s) == Some(
            s.vms[s.selected].pid,
        ),
        s.vms.len() == 0 ==> selected_guest(s) is None,
{
}

/// Moving the selection by any number of rows goes that many rows down or up, and round the ends of
/// the list as often as it takes.
pub proof fn law_selection_wraps_round(s: State, delta: int) -> (rounds: int)
    requires
        valid(s),
        s.vms.len() > 0,
    ensures
        ({
            let t = with_selection_moved(s, delta).0;
            &&& 0 <= t.selected < s.vms.len()
            &&& t.selected + rounds * s.vms.len() == s.selected + delta
            &&& t == State { selected: t.selected, cursor: Some(t.selected), ..s }
        }),
        with_selection_moved(s, delta).1 <==> s.expanded && with_selection_moved(s, delta).0.selected
            != s.selected,
{
    let n = s.vms.len() as int;
    let x = s.selected + delta;
    vstd::arithmetic::div_mod::lemma_fundamental_div_mod(x, n);
    vstd::arithmetic::div_mod::lemma_mod_bound(x, n);
    let t = with_selection_moved(s, delta).0;
    assert(t =~= State { selected: t.selected, cursor: Some(t.selected), ..s });
    assert((x / n) * n == n * (x / n)) by (nonlinear_arith);
    x / n
}

} // verus!
