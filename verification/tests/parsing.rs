use abyss_top::counters::{read_io_counters, read_proc_io, read_proc_net_dev, sum_net_dev, IoCounters};
use abyss_top::qemu::{
    extract_ifnames, extract_vm_name, is_qemu_process, is_tap_device_path, vm_ifaces_for_pid,
    FdReading, IfaceSet,
};
use abyss_top::text;
use abyss_top::threads::{
    parse_schedstat_wait_ns, parse_stat_processor_field, parse_vcpu_index, task_ids,
};
use abyss_top::topology::{
    build_cpu_to_node_map, numa_pages, parse_cpulist, sum_numa_maps_by_node, NodeReading,
};

fn chars(s: &str) -> Vec<char> {
    s.chars().collect()
}

fn ifaces(names: &[&str]) -> IfaceSet {
    let mut set = IfaceSet::new();
    for name in names {
        set.insert(&chars(name));
    }
    set
}

fn fd(target: Option<&str>, info: Option<&str>) -> FdReading {
    FdReading { target: target.map(str::to_string), info: info.map(str::to_string) }
}

fn node(name: &str, cpulist: Option<&str>) -> NodeReading {
    NodeReading { name: name.to_string(), cpulist: cpulist.map(str::to_string) }
}

#[test]
fn parses_guest_form() {
    let args = vec!["qemu-system-x86_64", "-name", "guest=cerberus-vm01,debug-threads=on"];
    assert_eq!(extract_vm_name(&args).as_deref(), Some("cerberus-vm01"));
}

#[test]
fn parses_bare_form() {
    let args = vec!["qemu-system-x86_64", "-name", "abyssos-test"];
    assert_eq!(extract_vm_name(&args).as_deref(), Some("abyssos-test"));
}

#[test]
fn parses_bare_with_trailing_opts() {
    let args = vec!["qemu-system-x86_64", "-name", "vm-42,debug-threads=on"];
    assert_eq!(extract_vm_name(&args).as_deref(), Some("vm-42"));
}

#[test]
fn parses_double_dash() {
    let args = vec!["qemu-system-x86_64", "--name", "vm-alpha"];
    assert_eq!(extract_vm_name(&args).as_deref(), Some("vm-alpha"));
}

#[test]
fn parses_equals_form() {
    let args = vec!["qemu-system-x86_64", "-name=vm-beta,debug-threads=on"];
    assert_eq!(extract_vm_name(&args).as_deref(), Some("vm-beta"));
}

#[test]
fn missing_name_returns_none() {
    let args = vec!["qemu-system-x86_64", "-m", "4096"];
    assert!(extract_vm_name(&args).is_none());
}

#[test]
fn name_edge_cases() {
    assert!(extract_vm_name(&[]).is_none());
    // The option without a value.
    assert!(extract_vm_name(&["qemu-kvm", "-name"]).is_none());
    // An empty name is none, and no later option is looked at.
    assert!(extract_vm_name(&["qemu-kvm", "-name", "guest=,x", "-name", "b"]).is_none());
    assert!(extract_vm_name(&["qemu-kvm", "-name="]).is_none());
    // Whitespace is trimmed on both sides of the prefix.
    assert_eq!(extract_vm_name(&["-name", "  guest= a b ,c"]).as_deref(), Some("a b"));
    // The first option counts.
    assert_eq!(extract_vm_name(&["--name=one", "-name", "two"]).as_deref(), Some("one"));
    // The prefix is taken off once.
    assert_eq!(extract_vm_name(&["-name", "guest=guest=x"]).as_deref(), Some("guest=x"));
}

#[test]
fn all_name_forms_agree() {
    for v in ["vm", "guest=vm,debug-threads=on", " vm "] {
        let equals = format!("-name={v}");
        let double = format!("--name={v}");
        for args in [
            vec!["q", "-name", v],
            vec!["q", "--name", v],
            vec!["q", equals.as_str()],
            vec!["q", double.as_str()],
        ] {
            assert_eq!(extract_vm_name(&args).as_deref(), Some("vm"));
        }
    }
}

#[test]
fn detects_qemu_variants() {
    assert!(is_qemu_process("qemu-system-x86", None));
    assert!(is_qemu_process("qemu-kvm", None));
    assert!(is_qemu_process("kvm", None));
    assert!(is_qemu_process("xxx", Some("/usr/libexec/qemu-kvm")));
    assert!(!is_qemu_process("bash", Some("/usr/bin/bash")));
}

#[test]
fn process_detection_edge_cases() {
    assert!(is_qemu_process("QEMU-System-x86", None));
    assert!(is_qemu_process("my-qemu-system", None));
    assert!(is_qemu_process("qemu-kvm-extra", None));
    assert!(!is_qemu_process("kvmd", None));
    assert!(!is_qemu_process("my-qemu-kvm", None));
    assert!(is_qemu_process("x", Some("/opt/KVM")));
    assert!(is_qemu_process("x", Some("/opt/QEMU-SYSTEM-arm")));
    assert!(!is_qemu_process("x", Some("kvm")));
    assert!(!is_qemu_process("", None));
    // Letters outside ASCII keep their case: the Kelvin sign is no k.
    assert!(!is_qemu_process("\u{212a}vm", None));
}

#[test]
fn extract_ifnames_from_netdev_args() {
    let args = vec![
        "qemu-system-x86_64",
        "-netdev",
        "tap,id=net0,ifname=vnet3,script=no,downscript=no",
        "-device",
        "virtio-net-pci,netdev=net0",
    ];
    assert_eq!(extract_ifnames(&args), vec!["vnet3".to_string()]);
}

#[test]
fn extract_ifnames_none() {
    let args = vec!["qemu-system-x86_64", "-m", "4096"];
    assert!(extract_ifnames(&args).is_empty());
}

#[test]
fn extract_ifnames_keeps_order_and_duplicates() {
    let args = vec!["ifname=b,ifname=a", "x,ifname= b ,ifname=", "xifname=c"];
    assert_eq!(extract_ifnames(&args), vec!["b", "a", "b"]);
}

#[test]
fn interfaces_come_from_taps_and_arguments() {
    let fds = [
        fd(Some("/dev/net/tun"), Some("pos:\t0\niff:\tvnet0\n")),
        fd(Some("/dev/tap7"), Some("iff:\tmacvtap0\r\niff:  \n")),
        fd(Some("/dev/null"), Some("iff:\teth0\n")),
        fd(Some("/dev/net/tun"), None),
        fd(None, Some("iff:\teth1\n")),
    ];
    let set = vm_ifaces_for_pid(&fds, &["-netdev", "tap,ifname=vnet0,ifname=vnet9"]);
    assert_eq!(set.len(), 3);
    for name in ["vnet0", "macvtap0", "vnet9"] {
        assert!(set.contains(&chars(name)));
    }
    for name in ["eth0", "eth1", ""] {
        assert!(!set.contains(&chars(name)));
    }
    assert!(!set.is_empty());
    assert!(vm_ifaces_for_pid(&[], &[]).is_empty());
}

#[test]
fn sum_net_dev_counts_only_selected_ifaces() {
    let content = "\
Inter-|   Receive                                                |  Transmit
 face |bytes    packets errs drop fifo frame compressed multicast|bytes    packets errs drop fifo colls carrier compressed
    lo:  1000     10    0    0    0     0          0         0     1000      10    0    0    0     0       0          0
 vnet0:  5000     50    0    0    0     0          0         0     7000      70    0    0    0     0       0          0
 vnet1:  9000     90    0    0    0     0          0         0     9000      90    0    0    0     0       0          0
  eth0: 12345    100    0    0    0     0          0         0    67890     200    0    0    0     0       0          0
";
    assert_eq!(sum_net_dev(content, &ifaces(&["vnet0"])), (5000, 7000));
    // Two guests without a common interface: their traffic adds up.
    assert_eq!(sum_net_dev(content, &ifaces(&["vnet0", "vnet1"])), (14000, 16000));
}

#[test]
fn sum_net_dev_empty_set_is_zero() {
    let content = "hdr1\nhdr2\n vnet0: 5000 50 0 0 0 0 0 0 7000 70 0 0 0 0 0 0\n";
    assert_eq!(sum_net_dev(content, &IfaceSet::new()), (0, 0));
}

#[test]
fn sum_net_dev_edge_cases() {
    let own = ifaces(&["a"]);
    // Header lines never count, even where they look like traffic.
    assert_eq!(sum_net_dev("a: 1 0 0 0 0 0 0 0 1\na: 1 0 0 0 0 0 0 0 1", &own), (0, 0));
    assert_eq!(sum_net_dev("", &own), (0, 0));
    // Too few fields; a field that is no number; sums that do not fit.
    assert_eq!(sum_net_dev("\n\na: 1 2 3 4 5 6 7 8", &own), (0, 0));
    assert_eq!(sum_net_dev("\n\na: x 2 3 4 5 6 7 8 9", &own), (0, 9));
    let max = u64::MAX;
    let content = format!("h\nh\na: {max} 0 0 0 0 0 0 0 1\na: 1 0 0 0 0 0 0 0 1\n");
    assert_eq!(sum_net_dev(&content, &own), (max, 2));
}

#[test]
fn tap_device_path_detection() {
    assert!(is_tap_device_path("/dev/net/tun"));
    assert!(is_tap_device_path("/dev/tap5"));
    assert!(is_tap_device_path("/dev/tap42"));
    assert!(!is_tap_device_path("/dev/null"));
    assert!(!is_tap_device_path("/dev/vhost-net"));
    assert!(!is_tap_device_path("/dev/kvm"));
}

#[test]
fn tap_device_path_edge_cases() {
    assert!(is_tap_device_path("tap"));
    assert!(!is_tap_device_path("/dev/tap5/x"));
    assert!(!is_tap_device_path(""));
    assert!(!is_tap_device_path("/dev/net/tun (deleted)"));
}

#[test]
fn io_counters_are_read() {
    let io = "rchar: 1\nread_bytes: 4096\nwrite_bytes: 8192\ncancelled_write_bytes: 7\n";
    let net = "h\nh\n vnet0: 5 0 0 0 0 0 0 0 6 0\n";
    let c = read_io_counters(Some(io), Some(net), &ifaces(&["vnet0"]));
    assert_eq!(c, IoCounters { disk_read: 4096, disk_write: 8192, net_rx: 5, net_tx: 6 });
    // What cannot be read counts as nothing.
    let none = read_io_counters(None, None, &ifaces(&["vnet0"]));
    assert_eq!(none, IoCounters::default());
    // Without an interface there is no traffic.
    let c = read_io_counters(Some(io), Some(net), &IfaceSet::new());
    assert_eq!(c, IoCounters { disk_read: 4096, disk_write: 8192, net_rx: 0, net_tx: 0 });
}

#[test]
fn io_counters_keep_what_is_not_read() {
    let mut c = IoCounters { disk_read: 1, disk_write: 2, net_rx: 3, net_tx: 4 };
    read_proc_io(Some("read_bytes: x\nread_bytes:9\r\n"), &mut c);
    assert_eq!(c, IoCounters { disk_read: 9, disk_write: 2, net_rx: 3, net_tx: 4 });
    read_proc_io(None, &mut c);
    read_proc_net_dev(None, &ifaces(&["a"]), &mut c);
    read_proc_net_dev(Some("h\nh\n"), &IfaceSet::new(), &mut c);
    assert_eq!(c, IoCounters { disk_read: 9, disk_write: 2, net_rx: 3, net_tx: 4 });
    read_proc_net_dev(Some("h\nh\n"), &ifaces(&["a"]), &mut c);
    assert_eq!(c, IoCounters { disk_read: 9, disk_write: 2, net_rx: 0, net_tx: 0 });
    read_proc_io(Some("write_bytes: -5\n"), &mut c);
    assert_eq!(c.disk_write, 0);
}

#[test]
fn parse_vcpu_index_matches_all_accelerators() {
    assert_eq!(parse_vcpu_index("CPU 3/KVM"), Some(3));
    assert_eq!(parse_vcpu_index("CPU 0/TCG"), Some(0));
    assert_eq!(parse_vcpu_index("CPU 12/DUMMY"), Some(12));
    assert_eq!(parse_vcpu_index("CPU 1/MSHV"), Some(1));
    assert_eq!(parse_vcpu_index("qemu-system-x86"), None);
    assert_eq!(parse_vcpu_index("CPU 3/BOGUS"), None);
}

#[test]
fn vcpu_index_edge_cases() {
    assert_eq!(parse_vcpu_index("  CPU  7 /KVM\n"), Some(7));
    assert_eq!(parse_vcpu_index("CPU x/KVM"), None);
    assert_eq!(parse_vcpu_index("CPU 3"), None);
    assert_eq!(parse_vcpu_index("CPU 3/KVM/KVM"), None);
    assert_eq!(parse_vcpu_index("CPU 4294967296/KVM"), None);
    assert_eq!(parse_vcpu_index("CPU +4/KVM"), Some(4));
}

#[test]
fn parse_stat_processor_field_skips_parenthesized_comm() {
    let stat = "462181 (sleep) S 462179 462179 462147 0 -1 4194560 187 0 0 0 0 0 0 0 20 0 1 0 39762025 3153920 416 18446744073709551615 93914003353600 93914003365697 140731401530928 0 0 0 0 0 0 1 0 0 17 3 0 0 0 0 0 9";
    assert_eq!(parse_stat_processor_field(stat), Some(3));
}

#[test]
fn parse_stat_processor_field_handles_comm_with_space_and_slash() {
    let stat = "100 (CPU 0/KVM) S 462179 462179 462147 0 -1 4194560 187 0 0 0 0 0 0 0 20 0 1 0 39762025 3153920 416 18446744073709551615 93914003353600 93914003365697 140731401530928 0 0 0 0 0 0 1 0 0 17 7 0 0 0 0 0 9";
    assert_eq!(parse_stat_processor_field(stat), Some(7));
}

#[test]
fn processor_field_ignores_the_name() {
    let fields = " S 462179 462179 462147 0 -1 4194560 187 0 0 0 0 0 0 0 20 0 1 0 39762025 3153920 416 18446744073709551615 93914003353600 93914003365697 140731401530928 0 0 0 0 0 0 1 0 0 17 7 0 0 0 0 0 9";
    for head in ["1 (a)", "1 (a) b)", "1 ((()", ")"] {
        assert_eq!(parse_stat_processor_field(&format!("{head}{fields}")), Some(7));
    }
    assert_eq!(parse_stat_processor_field("1 (a) S 1 2 3"), None);
    assert_eq!(parse_stat_processor_field("no name at all"), None);
    assert_eq!(parse_stat_processor_field(")"), None);
}

#[test]
fn parse_schedstat_wait_ns_reads_second_field() {
    assert_eq!(parse_schedstat_wait_ns("1532390 0 1"), Some(0));
    assert_eq!(parse_schedstat_wait_ns("998877 445566 12"), Some(445566));
}

#[test]
fn schedstat_edge_cases() {
    assert_eq!(parse_schedstat_wait_ns("1"), None);
    assert_eq!(parse_schedstat_wait_ns("1 x"), None);
    assert_eq!(parse_schedstat_wait_ns(""), None);
    assert_eq!(parse_schedstat_wait_ns("\n1\t18446744073709551615"), Some(u64::MAX));
    assert_eq!(parse_schedstat_wait_ns("1 18446744073709551616"), None);
}

#[test]
fn task_ids_are_numbers() {
    let names = ["12", "x", "", "7", "4294967296", "+3"].map(String::from);
    assert_eq!(task_ids(&names), vec![12, 7, 3]);
}

#[test]
fn parse_cpulist_handles_ranges_and_singles() {
    assert_eq!(parse_cpulist("0-3"), vec![0, 1, 2, 3]);
    assert_eq!(parse_cpulist("0-3,8-11"), vec![0, 1, 2, 3, 8, 9, 10, 11]);
    assert_eq!(parse_cpulist("5"), vec![5]);
    assert_eq!(parse_cpulist(""), Vec::<u32>::new());
}

#[test]
fn cpulist_edge_cases() {
    assert_eq!(parse_cpulist(" 1 - 2 , , 9 ,x,3-y,7-5"), vec![1, 2, 9]);
    assert_eq!(parse_cpulist("4294967294-4294967295"), vec![u32::MAX - 1, u32::MAX]);
    assert_eq!(parse_cpulist("1-2-3"), Vec::<u32>::new());
}

#[test]
fn cpus_are_placed_on_nodes() {
    let map = build_cpu_to_node_map(&[
        node("node0", Some("0-1\n")),
        node("node1", Some("1-3")),
        node("node2", None),
        node("nodeX", Some("9")),
        node("has_cpu", Some("9")),
        node("cpu7", Some("9")),
    ]);
    assert_eq!(map.len(), 4);
    assert_eq!(map.get(&0), Some(&0));
    // The last entry that lists a CPU counts.
    assert_eq!(map.get(&1), Some(&1));
    assert_eq!(map.get(&3), Some(&1));
    assert!(build_cpu_to_node_map(&[]).is_empty());
}

#[test]
fn sum_numa_maps_by_node_single_node_real_fixture() {
    let content = "556a0ecf1000 default file=/usr/bin/sleep mapped=2 mapmax=2 active=0 N0=2 kernelpagesize_kB=4\n\
                    556a0ecf3000 default file=/usr/bin/sleep mapped=3 mapmax=2 active=0 N0=3 kernelpagesize_kB=4\n";
    let totals = sum_numa_maps_by_node(content);
    assert_eq!(totals.get(&0), Some(&5));
    assert_eq!(totals.len(), 1);
}

#[test]
fn sum_numa_maps_by_node_sums_across_multiple_nodes() {
    let content = "7f0000000000 interleave file=/mem N0=100 N1=50 kernelpagesize_kB=4\n\
                    7f0000200000 default anon=10 dirty=10 N1=10 kernelpagesize_kB=2048\n";
    let totals = sum_numa_maps_by_node(content);
    assert_eq!(totals.get(&0), Some(&100));
    assert_eq!(totals.get(&1), Some(&60));
}

#[test]
fn numa_tokens_edge_cases() {
    let content = "N=1 N0= Nx=1 N2=0 N0=x n0=5 N0=7=8 N3=4";
    let totals = sum_numa_maps_by_node(content);
    assert_eq!(totals.get(&2), Some(&0));
    assert_eq!(totals.get(&3), Some(&4));
    assert_eq!(totals.len(), 2);
    assert_eq!(numa_pages(content), Some(4));
    assert!(totals.values().all(|pages| *pages <= 4));
    assert_eq!(numa_pages("N0=18446744073709551615 N1=1"), None);
    assert_eq!(numa_pages(""), Some(0));
}

#[test]
fn one_full_node_leaves_room_on_the_others() {
    let totals = sum_numa_maps_by_node("N0=18446744073709551615 N1=1");
    assert_eq!(totals.get(&0), Some(&u64::MAX));
    assert_eq!(totals.get(&1), Some(&1));
    assert_eq!(totals.len(), 2);
}

#[test]
fn pages_of_joined_texts_add_up() {
    let texts = ["", "N0=1 N1=2", "x N1=40\nN3=0", "N2=7", " anon=10 ", "N0=1"];
    for a in texts {
        for b in texts {
            let (p, q) = (sum_numa_maps_by_node(a), sum_numa_maps_by_node(b));
            let both = sum_numa_maps_by_node(&format!("{a}\n{b}"));
            for node in 0..5u32 {
                let known = p.contains_key(&node) || q.contains_key(&node);
                assert_eq!(both.contains_key(&node), known);
                let sum = p.get(&node).unwrap_or(&0) + q.get(&node).unwrap_or(&0);
                assert_eq!(both.get(&node).copied().unwrap_or(0), sum);
            }
        }
    }
}

#[test]
fn single_tokens_count_alone() {
    for (node, count) in [(0u32, 0u64), (7, 12), (u32::MAX, u64::MAX)] {
        let totals = sum_numa_maps_by_node(&format!("N{node}={count}"));
        assert_eq!(totals.len(), 1);
        assert_eq!(totals.get(&node), Some(&count));
    }
    for token in ["N=5", "Nx=1", "N0=", "anon=10", "N4294967296=1", "N0=18446744073709551616"] {
        assert!(sum_numa_maps_by_node(token).is_empty(), "{}", token);
    }
}

#[test]
fn whitespace_is_that_of_unicode() {
    for c in '\0'..=char::MAX {
        assert_eq!(text::space(c), c.is_whitespace(), "{:?}", c);
    }
}

#[test]
fn text_agrees_with_the_standard_library() {
    let samples = [
        "", " ", "a", " a ", "a b", "\t a\u{2003}b \n", "a,b,,c", ",", "a\r\nb\n\nc\r", "\n", "\r\n",
        "x:y:z", ":", "+", "+12", "-12", "007", "12 ", "18446744073709551615",
        "18446744073709551616", "4294967295", "4294967296", "ÄBCÀz", "/dev/tap1", "a/b/",
        "99999999999999999999999999",
    ];
    for s in samples {
        let c = chars(s);
        assert_eq!(text::to_text(text::trim(&c)), s.trim());
        let got: Vec<String> = text::lines(&c).iter().map(|l| text::to_text(l)).collect();
        assert_eq!(got, s.lines().collect::<Vec<_>>(), "{:?}", s);
        let got: Vec<String> = text::words(&c).iter().map(|l| text::to_text(l)).collect();
        assert_eq!(got, s.split_whitespace().collect::<Vec<_>>());
        let got: Vec<String> =
            text::pieces(&c, text::Cut::At(',')).iter().map(|l| text::to_text(l)).collect();
        assert_eq!(got, s.split(',').collect::<Vec<_>>());
        let got = text::split_once(&c, ':').map(|(a, b)| (text::to_text(a), text::to_text(b)));
        assert_eq!(got, s.split_once(':').map(|(a, b)| (a.to_string(), b.to_string())));
        let got = text::after_last(&c, '/').map(text::to_text);
        assert_eq!(got, s.rfind('/').map(|i| s[i + 1..].to_string()));
        let lower: String = text::to_lower(s).iter().collect();
        assert_eq!(lower, s.to_ascii_lowercase());
        assert_eq!(text::parse_u32(&c), s.parse::<u32>().ok(), "{:?}", s);
        assert_eq!(text::parse_u64(&c), s.parse::<u64>().ok(), "{:?}", s);
        for p in ["", "a", "/", "a/b/", "12", "z"] {
            assert_eq!(text::has_prefix(&c, p), s.starts_with(p));
            assert_eq!(text::has_suffix(&c, p), s.ends_with(p));
            assert_eq!(text::has_part(&c, p), s.contains(p), "{:?} {:?}", s, p);
            assert_eq!(text::strip_prefix(&c, p).map(text::to_text), s.strip_prefix(p).map(str::to_string));
        }
    }
}
