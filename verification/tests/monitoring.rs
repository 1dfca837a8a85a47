use abyss_top::libvirt::{parse_virsh_list, DomainFeed, DomainState, Poll};
use abyss_top::model::{sort_vms, HostStats, SortBy, VmStats};
use abyss_top::monitor::{
    tick_due, time_to_wait, App, DetailReading, HostReading, Key, NumaReading, ProcessReading,
    ThreadReading, TICK_NS,
};
use abyss_top::qemu::FdReading;
use abyss_top::single::F32;
use abyss_top::state::{fmt_uptime, GuestState, ProcStatus};
use std::collections::HashMap;

const SEC: u64 = 1_000_000_000;

fn f32_of(x: f32) -> F32 {
    F32 { bits: x.to_bits() }
}

fn vm(pid: u32, cpu: f32, mem_mb: u64, disk: (u64, u64), net: (u64, u64)) -> VmStats {
    VmStats {
        pid,
        name: "vm".into(),
        cpu_pct: f32_of(cpu),
        mem_mb,
        disk_read_bps: disk.0,
        disk_write_bps: disk.1,
        net_rx_bps: net.0,
        net_tx_bps: net.1,
    }
}

fn order(vms: &[VmStats]) -> Vec<u32> {
    vms.iter().map(|v| v.pid).collect()
}

fn process(pid: u32, guest: &str, cpu: f32) -> ProcessReading {
    ProcessReading {
        pid,
        name: "qemu-kvm".into(),
        exe: None,
        args: vec!["qemu-kvm".into(), "-name".into(), guest.into()],
        cpu: f32_of(cpu),
        memory: 3 * 1024 * 1024 + 5,
        status: ProcStatus::Sleep,
        run_time: 61,
        io: Some(format!("read_bytes: {}\nwrite_bytes: {}\n", pid, 2 * pid)),
        net_dev: None,
        fds: Vec::new(),
    }
}

fn host() -> HostReading {
    HostReading { cpus: vec![f32_of(10.0), f32_of(15.0)], used: 5 * 1024 * 1024, total: 8 * 1024 * 1024 + 1 }
}

fn thread(tid: u32, comm: &str, cpu: u32, wait: u64) -> ThreadReading {
    ThreadReading {
        tid,
        comm: Some(comm.into()),
        stat: Some(format!("{tid} ({comm}) S {}{cpu} 0", "0 ".repeat(35))),
        schedstat: Some(format!("1 {wait} 1")),
    }
}

fn app_with(guests: &[(u32, f32)]) -> App {
    let mut app = App::new(HashMap::new());
    let procs: Vec<ProcessReading> =
        guests.iter().map(|(pid, cpu)| process(*pid, &format!("g{pid}"), *cpu)).collect();
    app.refresh(&host(), &procs, SEC);
    app
}

#[test]
fn sort_by_cpu_descending() {
    let mut vms = vec![
        VmStats {
            pid: 1, name: "a".into(), cpu_pct: f32_of(10.0), mem_mb: 0,
            disk_read_bps: 0, disk_write_bps: 0, net_rx_bps: 0, net_tx_bps: 0,
        },
        VmStats {
            pid: 2, name: "b".into(), cpu_pct: f32_of(50.0), mem_mb: 0,
            disk_read_bps: 0, disk_write_bps: 0, net_rx_bps: 0, net_tx_bps: 0,
        },
    ];
    sort_vms(&mut vms, SortBy::Cpu);
    assert_eq!(vms[0].pid, 2);
}

#[test]
fn sort_by_disk_io_descending() {
    let mut vms = vec![
        VmStats {
            pid: 1, name: "a".into(), cpu_pct: f32_of(0.0), mem_mb: 0,
            disk_read_bps: 100, disk_write_bps: 100, net_rx_bps: 0, net_tx_bps: 0,
        },
        VmStats {
            pid: 2, name: "b".into(), cpu_pct: f32_of(0.0), mem_mb: 0,
            disk_read_bps: 10, disk_write_bps: 10, net_rx_bps: 0, net_tx_bps: 0,
        },
    ];
    sort_vms(&mut vms, SortBy::DiskIo);
    assert_eq!(vms[0].pid, 1);
}

#[test]
fn sorting_is_stable_and_by_sums() {
    let all = || {
        vec![
            vm(1, 5.0, 7, (u64::MAX, u64::MAX), (0, 1)),
            vm(2, 9.0, 7, (1, 2), (3, 0)),
            vm(3, 5.0, 8, (2, 1), (1, 2)),
            vm(4, 0.5, 7, (0, 4), (1, 1)),
        ]
    };
    let sorted = |by: SortBy| {
        let mut vms = all();
        sort_vms(&mut vms, by);
        order(&vms)
    };
    assert_eq!(sorted(SortBy::Cpu), vec![2, 1, 3, 4]);
    assert_eq!(sorted(SortBy::DiskIo), vec![1, 4, 2, 3]);
    assert_eq!(sorted(SortBy::NetIo), vec![2, 3, 4, 1]);
    assert_eq!(sorted(SortBy::Memory), vec![3, 1, 2, 4]);
    // Sorting again changes nothing.
    let mut vms = all();
    sort_vms(&mut vms, SortBy::NetIo);
    sort_vms(&mut vms, SortBy::NetIo);
    assert_eq!(order(&vms), vec![2, 3, 4, 1]);
    let mut none: Vec<VmStats> = Vec::new();
    sort_vms(&mut none, SortBy::Cpu);
    assert!(none.is_empty());
}

#[test]
fn order_labels() {
    assert_eq!(SortBy::Cpu.label(), "CPU");
    assert_eq!(SortBy::DiskIo.label(), "disk I/O");
    assert_eq!(SortBy::NetIo.label(), "net I/O");
    assert_eq!(SortBy::Memory.label(), "memory");
}

#[test]
fn a_new_monitor_is_empty() {
    let map: HashMap<u32, u32> = [(0, 0), (1, 0), (2, 1), (3, 4)].into_iter().collect();
    let app = App::new(map);
    assert!(app.vms().is_empty());
    assert_eq!(app.host(), HostStats::default());
    assert_eq!(app.sort_by(), SortBy::Cpu);
    assert!(!app.should_quit() && !app.expanded());
    assert_eq!(app.cursor(), Some(0));
    assert_eq!(app.node_count(), 3);
    assert!(app.detail().is_none());
    assert_eq!(app.selected_pid(), None);
    assert!(app.is_polling());
}

#[test]
fn refresh_finds_guests_and_their_rates() {
    let mut app = App::new(HashMap::new());
    let mut bash = process(7, "no guest", 1.0);
    bash.name = "bash".into();
    let mut unnamed = process(30, "x", 2.0);
    unnamed.args = Vec::new();
    app.prime(&[process(10, "ten", 0.0), bash], 5 * SEC);
    let mut ten = process(10, "ten", 50.0);
    ten.io = Some("read_bytes: 1010\nwrite_bytes: 5\n".into());
    ten.net_dev = Some("h\nh\nvnet0: 700 0 0 0 0 0 0 0 900 0\n".into());
    ten.fds = vec![FdReading {
        target: Some("/dev/net/tun".into()),
        info: Some("iff:\tvnet0\n".into()),
    }];
    let mut other = process(8, "none", 99.0);
    other.name = "kvmd".into();
    let again = app.refresh(&host(), &[unnamed, ten, other], 7 * SEC);
    assert!(!again);
    assert_eq!(order(app.vms()), vec![10, 30]);
    let g = &app.vms()[0];
    assert_eq!(g.name, "ten");
    assert_eq!(g.cpu_pct, f32_of(50.0));
    assert_eq!(g.mem_mb, 3);
    // Over two seconds: 1000 bytes read; written bytes have gone back; traffic is new.
    assert_eq!((g.disk_read_bps, g.disk_write_bps), (500, 0));
    assert_eq!((g.net_rx_bps, g.net_tx_bps), (350, 450));
    // A guest without an earlier sample, and without a name.
    let g = &app.vms()[1];
    assert_eq!(g.name, "pid:30");
    assert_eq!((g.disk_read_bps, g.disk_write_bps), (0, 0));
    assert_eq!(
        app.host(),
        HostStats { cpu_pct: f32_of(12.5), mem_used_mb: 5, mem_total_mb: 8 }
    );
    assert_eq!(app.cursor(), Some(0));
}

#[test]
fn samples_of_gone_guests_are_dropped_in_time() {
    let mut app = app_with(&[(1, 1.0), (2, 1.0), (3, 1.0)]);
    let grown = |pid: u32| {
        let mut p = process(pid, "g", 0.0);
        p.io = Some("read_bytes: 1000\n".into());
        p
    };
    // Three samples for two guests are kept, those of the third too.
    app.refresh(&host(), &[grown(1), grown(2)], 2 * SEC);
    app.refresh(&host(), &[grown(1), grown(2), grown(3)], 3 * SEC);
    let third = app.vms().iter().find(|v| v.pid == 3).unwrap();
    assert_eq!(third.disk_read_bps, (1000 - 3) / 2);
    // Three samples for one guest are too many.
    app.refresh(&host(), &[grown(1)], 4 * SEC);
    app.refresh(&host(), &[grown(1), process(3, "g", 0.0)], 5 * SEC);
    let third = app.vms().iter().find(|v| v.pid == 3).unwrap();
    assert_eq!(third.disk_read_bps, 0);
}

#[test]
fn states_of_processes() {
    let pairs = [
        (ProcStatus::Run, GuestState::Up, "up"),
        (ProcStatus::Sleep, GuestState::Up, "up"),
        (ProcStatus::Idle, GuestState::Up, "up"),
        (ProcStatus::Other, GuestState::Up, "up"),
        (ProcStatus::DiskSleep, GuestState::Io, "io"),
        (ProcStatus::Stop, GuestState::Stop, "stop"),
        (ProcStatus::Tracing, GuestState::Stop, "stop"),
        (ProcStatus::Zombie, GuestState::Dead, "dead"),
        (ProcStatus::Dead, GuestState::Dead, "dead"),
    ];
    for (status, state, word) in pairs {
        assert_eq!(status.guest_state(), state);
        assert_eq!(state.label(), word);
    }
    let mut app = App::new(HashMap::new());
    let mut p = process(4, "g", 0.0);
    p.status = ProcStatus::DiskSleep;
    app.refresh(&host(), &[p], SEC);
    let life = app.life_of(4).unwrap();
    assert_eq!((life.state, life.uptime_secs), (GuestState::Io, 61));
    assert!(app.life_of(5).is_none());
}

#[test]
fn uptime_texts() {
    assert_eq!(fmt_uptime(4 * 86400 + 2 * 3600 + 59), "4d2h");
    assert_eq!(fmt_uptime(18 * 3600 + 30 * 60 + 1), "18h30m");
    assert_eq!(fmt_uptime(3 * 3600 + 5 * 60), "3h5m");
    assert_eq!(fmt_uptime(86400), "1d0h");
    assert_eq!(fmt_uptime(5 * 60 + 12), "5m12s");
    assert_eq!(fmt_uptime(59), "59s");
    assert_eq!(fmt_uptime(0), "0s");
    assert_eq!(fmt_uptime(u64::MAX), "213503982334601d7h");
}

#[test]
fn keys_sort_and_quit() {
    let mut app = app_with(&[(1, 1.0), (2, 3.0), (3, 2.0)]);
    assert_eq!(order(app.vms()), vec![2, 3, 1]);
    for (key, by) in [
        ('d', SortBy::DiskIo), ('N', SortBy::NetIo), ('m', SortBy::Memory), ('C', SortBy::Cpu),
        ('D', SortBy::DiskIo), ('n', SortBy::NetIo), ('M', SortBy::Memory), ('c', SortBy::Cpu),
    ] {
        assert!(!app.on_key(Key::Char(key)));
        assert_eq!(app.sort_by(), by);
    }
    assert_eq!(order(app.vms()), vec![2, 3, 1]);
    for key in [Key::Char('x'), Key::Other, Key::Char('5')] {
        assert!(!app.on_key(key));
        assert!(!app.should_quit());
    }
    for key in [Key::Char('q'), Key::Char('Q'), Key::Esc] {
        let mut app = app_with(&[]);
        assert!(!app.on_key(key));
        assert!(app.should_quit());
    }
}

#[test]
fn selection_wraps_around() {
    let mut app = app_with(&[(1, 3.0), (2, 2.0), (3, 1.0)]);
    assert_eq!(app.cursor(), Some(0));
    app.on_key(Key::Up);
    assert_eq!(app.cursor(), Some(2));
    assert_eq!(app.selected_pid(), Some(3));
    app.on_key(Key::Down);
    assert_eq!(app.cursor(), Some(0));
    app.on_key(Key::Down);
    assert_eq!(app.selected_pid(), Some(2));
    app.on_key(Key::Up);
    assert_eq!(app.cursor(), Some(0));
    app.move_selection(-7);
    assert_eq!(app.cursor(), Some(2));
    app.move_selection(i32::MAX);
    assert_eq!(app.cursor(), Some((2 + i32::MAX as usize) % 3));
    app.move_selection(i32::MIN);
    app.move_selection(6);
    let before = app.cursor();
    assert!(!app.move_selection(3));
    assert_eq!(app.cursor(), before);
    let mut none = app_with(&[]);
    assert!(!none.on_key(Key::Down));
    assert_eq!(none.cursor(), None);
}

#[test]
fn selection_is_clamped_when_guests_go() {
    let mut app = app_with(&[(1, 3.0), (2, 2.0), (3, 1.0)]);
    app.on_key(Key::Up);
    app.refresh(&host(), &[process(1, "a", 1.0), process(2, "b", 0.0)], 2 * SEC);
    assert_eq!(app.cursor(), Some(1));
    app.refresh(&host(), &[], 3 * SEC);
    assert_eq!(app.cursor(), None);
    assert_eq!(app.selected_pid(), None);
    app.refresh(&host(), &[process(1, "a", 1.0)], 4 * SEC);
    assert_eq!(app.cursor(), Some(0));
}

#[test]
fn detail_is_opened_and_closed() {
    let mut app = app_with(&[(1, 3.0), (2, 2.0)]);
    assert!(app.on_key(Key::Enter));
    assert!(app.expanded() && app.detail().is_none());
    let empty = DetailReading { threads: Vec::new(), numa: NumaReading::Failed };
    app.recompute_detail(&empty, SEC);
    assert!(app.detail().is_some());
    // Moving on asks for the detail of the next guest.
    assert!(app.on_key(Key::Down));
    assert!(app.refresh(&host(), &[process(1, "a", 0.0)], 2 * SEC));
    assert!(!app.on_key(Key::Tab));
    assert!(!app.expanded() && app.detail().is_none());
    assert!(!app.on_key(Key::Down));
    // Without guests nothing is opened.
    let mut none = app_with(&[]);
    assert!(!none.on_key(Key::Enter));
    assert!(!none.expanded());
}

#[test]
fn detail_goes_when_the_last_guest_goes() {
    let mut app = app_with(&[(1, 3.0)]);
    let empty = DetailReading { threads: Vec::new(), numa: NumaReading::Failed };
    app.toggle_expanded();
    app.recompute_detail(&empty, SEC);
    assert!(app.refresh(&host(), &[], 2 * SEC));
    app.recompute_detail(&empty, 2 * SEC);
    assert!(app.expanded() && app.detail().is_none());
}

#[test]
fn detail_lists_vcpus_and_memory() {
    let map: HashMap<u32, u32> = [(5, 1), (6, 0)].into_iter().collect();
    let mut app = App::new(map);
    app.refresh(&host(), &[process(40, "g", 1.0)], SEC);
    app.toggle_expanded();
    let numa = "7f00 default N1=30 N0=10\n7f01 default N1=60 N3=0\n";
    let reading = |wait: u64| DetailReading {
        threads: vec![
            thread(102, "CPU 1/KVM", 5, wait),
            thread(100, "qemu-kvm", 5, 0),
            thread(101, "CPU 0/KVM", 7, 500_000_000),
            ThreadReading { tid: 103, comm: None, stat: None, schedstat: None },
        ],
        numa: NumaReading::Content(numa.into()),
    };
    app.recompute_detail(&reading(1_000), 10 * SEC);
    let d = app.detail().unwrap();
    let seen: Vec<(u32, u32, u32, Option<u32>)> =
        d.vcpus.iter().map(|v| (v.tid, v.vcpu_index, v.cur_cpu, v.numa_node)).collect();
    assert_eq!(seen, vec![(101, 0, 7, None), (102, 1, 5, Some(1))]);
    assert!(d.vcpus.iter().all(|v| v.wait_pct.m == 0));
    assert!(!d.denied);
    let mem: Vec<(u32, f64)> =
        d.mem_by_node.iter().map(|(n, f)| (*n, f.m as f64 * 2f64.powi(f.e))).collect();
    assert_eq!(mem, vec![(0, 10.0), (1, 90.0), (3, 0.0)]);
    // Half a second of waiting over two seconds.
    app.recompute_detail(&reading(500_001_000), 12 * SEC);
    let d = app.detail().unwrap();
    assert_eq!(d.vcpus[1].wait_pct.m as f64 * 2f64.powi(d.vcpus[1].wait_pct.e), 25.0);
    assert_eq!(d.vcpus[0].wait_pct.m, 0);
    // A thread that goes and comes back starts anew.
    let none = DetailReading { threads: Vec::new(), numa: NumaReading::Denied };
    app.recompute_detail(&none, 13 * SEC);
    let d = app.detail().unwrap();
    assert!(d.vcpus.is_empty() && d.mem_by_node.is_empty() && d.denied);
    app.recompute_detail(&reading(900_000_000), 14 * SEC);
    assert!(app.detail().unwrap().vcpus.iter().all(|v| v.wait_pct.m == 0));
}

#[test]
fn samples_of_other_guests_stay() {
    let mut app = app_with(&[(1, 2.0), (2, 1.0)]);
    app.toggle_expanded();
    let reading = |wait: u64| DetailReading {
        threads: vec![thread(9, "CPU 0/KVM", 0, wait)],
        numa: NumaReading::Failed,
    };
    app.recompute_detail(&reading(0), SEC);
    app.move_selection(1);
    app.recompute_detail(&DetailReading { threads: Vec::new(), numa: NumaReading::Failed }, SEC);
    app.move_selection(1);
    app.recompute_detail(&reading(100_000_000), 2 * SEC);
    let v = app.detail().unwrap().vcpus[0];
    assert_eq!(v.wait_pct.m as f64 * 2f64.powi(v.wait_pct.e), 10.0);
    // The samples of a guest that is gone are dropped.
    app.refresh(&host(), &[process(2, "b", 1.0)], 3 * SEC);
    app.refresh(&host(), &[process(1, "a", 1.0)], 4 * SEC);
    app.recompute_detail(&reading(200_000_000), 5 * SEC);
    assert_eq!(app.detail().unwrap().vcpus[0].wait_pct.m, 0);
}

#[test]
fn memory_without_pages_is_not_listed() {
    let mut app = app_with(&[(1, 2.0)]);
    app.toggle_expanded();
    for content in ["", "N0=0 N1=0"] {
        let reading = DetailReading {
            threads: Vec::new(),
            numa: NumaReading::Content(content.into()),
        };
        app.recompute_detail(&reading, SEC);
        let d = app.detail().unwrap();
        assert!(d.mem_by_node.is_empty() && !d.denied);
    }
}

#[test]
fn virsh_list_is_parsed() {
    let output = " Id   Name                   State\n\
                  --------------------------------------\n \
                  1    cerberus-node01        running\n \
                  12   abyssos-build-runner   paused\n \
                  3    a                      idle\n \
                  4    b                      in shutdown\n \
                  5    c                      crashed\n \
                  6    d                      pmsuspended\n \
                  7    e                      no state\n \
                  -    rocky9 test vm         shut off\n\n";
    let got: Vec<(String, DomainState)> =
        parse_virsh_list(output).into_iter().map(|d| (d.name, d.state)).collect();
    let want = [
        ("cerberus-node01", DomainState::Running),
        ("abyssos-build-runner", DomainState::Paused),
        ("a", DomainState::Idle),
        ("b", DomainState::InShutdown),
        ("c", DomainState::Crashed),
        ("d", DomainState::PmSuspended),
        ("e", DomainState::NoState),
        ("rocky9 test vm", DomainState::ShutOff),
    ];
    assert_eq!(got, want.map(|(n, s)| (n.to_string(), s)).to_vec());
}

#[test]
fn virsh_lines_that_list_nothing() {
    for line in [
        "", "running", "1 running", "1 a", "x a running", "1 a unknown", "1 arunning", "- running",
        "error: failed to connect to the hypervisor",
    ] {
        assert!(parse_virsh_list(line).is_empty(), "{:?}", line);
    }
    assert_eq!(parse_virsh_list("1 running running").len(), 1);
}

#[test]
fn domain_words() {
    let words = [
        (DomainState::Running, "run"), (DomainState::Idle, "idle"), (DomainState::Paused, "pause"),
        (DomainState::PmSuspended, "pmsus"), (DomainState::InShutdown, "down"),
        (DomainState::ShutOff, "off"), (DomainState::Crashed, "crash"), (DomainState::NoState, "none"),
    ];
    for (state, word) in words {
        assert_eq!(state.label(), word);
    }
}

#[test]
fn polls_keep_replace_or_disable() {
    let mut feed = DomainFeed::new();
    assert!(feed.is_enabled());
    assert_eq!(feed.state_of("a"), None);
    feed.apply(&Poll::Output("1 a running\n2 b paused\n".into()));
    assert_eq!(feed.state_of("a"), Some(DomainState::Running));
    // A failure keeps what is known.
    feed.apply(&Poll::Failed);
    assert_eq!(feed.state_of("b"), Some(DomainState::Paused));
    // A new output replaces it.
    feed.apply(&Poll::Output("2 b running\n".into()));
    assert_eq!(feed.state_of("a"), None);
    assert_eq!(feed.state_of("b"), Some(DomainState::Running));
    // Without the program it ends for good.
    feed.apply(&Poll::Missing);
    assert!(!feed.is_enabled());
    feed.apply(&Poll::Output("2 b running\n".into()));
    assert_eq!(feed.state_of("b"), None);
    assert!(!feed.is_enabled());
}

#[test]
fn polls_reach_the_monitor() {
    let mut app = app_with(&[(1, 1.0)]);
    app.apply_poll(&Poll::Output("1 g1 paused\n".into()));
    assert_eq!(app.domain_state("g1"), Some(DomainState::Paused));
    assert!(app.is_polling());
    app.apply_poll(&Poll::Missing);
    assert_eq!(app.domain_state("g1"), None);
    assert!(!app.is_polling());
}

#[test]
fn pace_of_refreshes() {
    assert_eq!(time_to_wait(0), TICK_NS);
    assert_eq!(time_to_wait(TICK_NS - 1), 1);
    assert_eq!(time_to_wait(TICK_NS + 1), 0);
    assert!(!tick_due(TICK_NS - 1));
    assert!(tick_due(TICK_NS));
}
