use abyss_top::libvirt::Poll;
use abyss_top::monitor::{
    App, DetailReading, HostReading, Key, NumaReading, ProcessReading, ThreadReading,
};
use abyss_top::panes::{panes, Area, Size};
use abyss_top::screen::{
    detail_header, detail_widths, render, render_detail, render_footer, render_title, table_header,
    table_widths, DetailView, Piece, Tint, Weight,
};
use abyss_top::single::F32;
use abyss_top::state::ProcStatus;
use std::collections::HashMap;

const SEC: u64 = 1_000_000_000;
const AREA: Area = Area { x: 0, y: 0, width: 120, height: 40 };

fn f32_of(x: f32) -> F32 {
    F32 { bits: x.to_bits() }
}

fn process(pid: u32, guest: &str, cpu: f32, status: ProcStatus) -> ProcessReading {
    ProcessReading {
        pid,
        name: "qemu-system-x86".into(),
        exe: None,
        args: vec!["-name".into(), guest.into()],
        cpu: f32_of(cpu),
        memory: 2048 * 1024 * 1024,
        status,
        run_time: 4 * 86400 + 2 * 3600,
        io: Some("read_bytes: 0\n".into()),
        net_dev: None,
        fds: Vec::new(),
    }
}

fn host() -> HostReading {
    HostReading { cpus: vec![f32_of(40.2), f32_of(48.2)], used: 14336 * 1024 * 1024, total: 32768 * 1024 * 1024 }
}

fn nodes() -> HashMap<u32, u32> {
    [(0, 0), (1, 1)].into_iter().collect()
}

fn texts(line: &[Piece]) -> Vec<&str> {
    line.iter().map(|p| p.text.as_str()).collect()
}

fn looks(line: &[Piece]) -> Vec<(&str, Tint, Weight)> {
    line.iter().map(|p| (p.text.as_str(), p.tint, p.weight)).collect()
}

fn memory_of(content: &str, map: HashMap<u32, u32>, denied: bool) -> Vec<(String, Tint, Weight)> {
    let mut app = App::new(map);
    app.refresh(&host(), &[process(1, "a", 1.0, ProcStatus::Run)], SEC);
    app.on_key(Key::Enter);
    let numa =
        if denied { NumaReading::Denied } else { NumaReading::Content(content.into()) };
    app.recompute_detail(&DetailReading { threads: Vec::new(), numa }, SEC);
    match render_detail(app.detail(), app.node_count()) {
        DetailView::Shown(_, memory) => {
            memory.into_iter().map(|p| (p.text, p.tint, p.weight)).collect()
        }
        DetailView::NoData(_) => panic!("no detail"),
    }
}

#[test]
fn title_counts_guests() {
    assert_eq!(
        looks(&render_title(3)),
        vec![
            ("Abyss-Top", Tint::Cyan, Weight::Bold),
            (" | KVM Hypervisor Monitor  ", Tint::Plain, Weight::Normal),
            ("[3 VMs]", Tint::Yellow, Weight::Normal),
        ]
    );
    assert_eq!(render_title(1)[2].text, "[1 VM]");
    assert_eq!(render_title(0)[2].text, "[0 VMs]");
}

#[test]
fn no_guests_give_one_row() {
    let app = App::new(HashMap::new());
    let s = render(&app, AREA);
    assert_eq!(s.rows.len(), 1);
    assert_eq!(s.rows[0].len(), 9);
    assert_eq!(s.rows[0][0].text, "-");
    let p = &s.rows[0][1];
    assert_eq!(
        (p.text.as_str(), p.tint, p.weight),
        ("No running QEMU/KVM guests detected", Tint::DarkGray, Weight::Italic)
    );
    assert_eq!(s.table_title, " Guests (sorted by CPU) ");
    assert!(s.detail.is_none() && s.panes.detail.is_none());
}

#[test]
fn guests_have_rows_and_a_total() {
    let mut app = App::new(HashMap::new());
    app.refresh(
        &host(),
        &[
            process(12847, "cerberus-node01", 87.3, ProcStatus::Sleep),
            process(12931, "abyssos-build-runner", 42.1, ProcStatus::DiskSleep),
            process(13102, "rocky9-test-vm", 3.4, ProcStatus::Zombie),
        ],
        SEC,
    );
    app.apply_poll(&Poll::Output("1 cerberus-node01 running\n2 abyssos-build-runner paused\n".into()));
    let s = render(&app, AREA);
    assert_eq!(s.rows.len(), 5);
    assert_eq!(
        looks(&s.rows[0]),
        vec![
            ("12847", Tint::Plain, Weight::Normal),
            ("cerberus-node01", Tint::White, Weight::Bold),
            ("up", Tint::Green, Weight::Normal),
            ("run", Tint::Green, Weight::Normal),
            ("4d2h", Tint::Plain, Weight::Normal),
            ("  87.3", Tint::Red, Weight::Normal),
            ("    2048", Tint::Plain, Weight::Normal),
            ("     0 B/s /      0 B/s", Tint::Magenta, Weight::Normal),
            ("     0 B/s /      0 B/s", Tint::LightBlue, Weight::Normal),
        ]
    );
    let row = looks(&s.rows[1]);
    assert_eq!(row[2], ("io", Tint::Yellow, Weight::Normal));
    assert_eq!(row[3], ("pause", Tint::Yellow, Weight::Normal));
    assert_eq!(row[5], ("  42.1", Tint::Yellow, Weight::Normal));
    let row = looks(&s.rows[2]);
    assert_eq!(row[2], ("dead", Tint::Red, Weight::Normal));
    assert_eq!(row[3], ("-", Tint::Gray, Weight::Normal));
    assert_eq!(row[5], ("   3.4", Tint::Green, Weight::Normal));
    assert!(s.rows[3].is_empty());
    assert_eq!(
        looks(&s.rows[4]),
        vec![
            ("TOTAL", Tint::Plain, Weight::Bold),
            ("3 VMs", Tint::White, Weight::Bold),
            ("", Tint::Plain, Weight::Normal),
            ("", Tint::Plain, Weight::Normal),
            ("", Tint::Plain, Weight::Normal),
            (" 132.8", Tint::Red, Weight::Bold),
            ("    6144", Tint::Plain, Weight::Bold),
            ("     0 B/s /      0 B/s", Tint::Magenta, Weight::Bold),
            ("     0 B/s /      0 B/s", Tint::LightBlue, Weight::Bold),
        ]
    );
    assert_eq!(s.cursor, Some(0));
    assert_eq!(table_header().len(), s.rows[0].len());
    assert_eq!(table_widths().len(), s.rows[0].len());
}

#[test]
fn totals_add_up_whatever_the_order() {
    let mut app = App::new(HashMap::new());
    let with = |pid: u32, read: u64| {
        let mut p = process(pid, "g", pid as f32, ProcStatus::Run);
        p.io = Some(format!("read_bytes: {read}\n"));
        p.memory = pid as u64 * 1024 * 1024;
        p
    };
    app.refresh(&host(), &[with(1, 0), with(2, 0), with(3, 0)], SEC);
    let max = u64::MAX;
    app.refresh(&host(), &[with(1, 100), with(2, 2000), with(3, 30)], 2 * SEC);
    let total = |app: &App| {
        let s = render(app, AREA);
        (s.rows[4][6].text.clone(), s.rows[4][7].text.clone())
    };
    let want = ("       6".to_string(), "  2.1 KB/s /      0 B/s".to_string());
    assert_eq!(total(&app), want);
    app.on_key(Key::Char('d'));
    assert_eq!(total(&app), want);
    // Sums that do not fit stay at the greatest number.
    app.refresh(&host(), &[with(1, max), with(2, max), with(3, 30)], 3 * SEC);
    assert_eq!(total(&app).1, "17179869184.0 GB/s /      0 B/s");
}

#[test]
fn load_colours_change_at_40_and_80() {
    for (cpu, tint) in [
        (0.0, Tint::Green), (39.9, Tint::Green), (40.0, Tint::Yellow), (79.99, Tint::Yellow),
        (80.0, Tint::Red), (780.0, Tint::Red), (f32::NAN, Tint::Green), (-5.0, Tint::Green),
    ] {
        let mut app = App::new(HashMap::new());
        app.refresh(&host(), &[process(1, "a", cpu, ProcStatus::Run)], SEC);
        let s = render(&app, AREA);
        assert_eq!(s.rows[0][5].tint, tint, "{}", cpu);
        assert_eq!(s.rows[0][5].text, format!("{:>6.1}", cpu));
    }
}

#[test]
fn colours_of_domain_states() {
    for (written, word, tint) in [
        ("running", "run", Tint::Green), ("idle", "idle", Tint::Green),
        ("paused", "pause", Tint::Yellow), ("pmsuspended", "pmsus", Tint::Yellow),
        ("in shutdown", "down", Tint::Yellow), ("shut off", "off", Tint::Red),
        ("crashed", "crash", Tint::Red), ("no state", "none", Tint::Gray),
    ] {
        let mut app = App::new(HashMap::new());
        app.refresh(&host(), &[process(1, "a", 1.0, ProcStatus::Stop)], SEC);
        app.apply_poll(&Poll::Output(format!("- a {written}\n")));
        let s = render(&app, AREA);
        assert_eq!((s.rows[0][3].text.as_str(), s.rows[0][3].tint), (word, tint));
        assert_eq!((s.rows[0][2].text.as_str(), s.rows[0][2].tint), ("stop", Tint::Red));
    }
}

#[test]
fn footer_shows_the_host() {
    let mut app = App::new(HashMap::new());
    app.refresh(&host(), &[], SEC);
    let line = render_footer(app.host());
    assert_eq!(
        texts(&line),
        vec![
            "Host ", "CPU ", " 44.2%", "   ", "RAM ", "14336/32768 MB (43.8%)", "   ",
            "↑↓ select · [Enter] detail · sort [C]pu [D]isk [N]et [M]em · [Q]uit",
        ]
    );
    assert_eq!((line[2].tint, line[2].weight), (Tint::White, Weight::Bold));
    assert_eq!((line[7].tint, line[7].weight), (Tint::Yellow, Weight::Bold));
    let mut empty = App::new(HashMap::new());
    empty.refresh(&HostReading { cpus: Vec::new(), used: 0, total: 0 }, &[], SEC);
    assert_eq!(render_footer(empty.host())[5].text, "0/0 MB (0.0%)");
}

#[test]
fn detail_before_the_first_reading() {
    let mut app = App::new(HashMap::new());
    app.refresh(&host(), &[process(1, "a", 1.0, ProcStatus::Run)], SEC);
    app.on_key(Key::Enter);
    let s = render(&app, AREA);
    match s.detail {
        Some(DetailView::NoData(line)) => {
            assert_eq!(looks(&line), vec![("No data yet…", Tint::DarkGray, Weight::Italic)]);
        }
        _ => panic!("nothing was read"),
    }
    assert!(s.panes.detail.is_some());
}

#[test]
fn detail_shows_vcpus() {
    let mut app = App::new(nodes());
    app.refresh(&host(), &[process(1, "a", 1.0, ProcStatus::Run)], SEC);
    app.on_key(Key::Enter);
    let thread = |tid: u32, index: u32, cpu: u32, wait: u64| ThreadReading {
        tid,
        comm: Some(format!("CPU {index}/KVM\n")),
        stat: Some(format!("{tid} (CPU {index}/KVM) S {}{cpu} 0", "0 ".repeat(35))),
        schedstat: Some(format!("0 {wait} 0")),
    };
    let reading = |a: u64, b: u64, c: u64| DetailReading {
        threads: vec![thread(11, 2, 9, c), thread(12, 0, 1, a), thread(13, 1, 0, b)],
        numa: NumaReading::Failed,
    };
    app.recompute_detail(&reading(0, 0, 0), SEC);
    app.recompute_detail(&reading(49_000_000, 50_000_000, 200_000_000), 2 * SEC);
    match render_detail(app.detail(), app.node_count()) {
        DetailView::Shown(rows, memory) => {
            assert_eq!(texts(&rows[0]), vec!["12", "0", "1", "1", "  4.9"]);
            assert_eq!(rows[0][4].tint, Tint::Green);
            assert_eq!(texts(&rows[1]), vec!["13", "1", "0", "0", "  5.0"]);
            assert_eq!(rows[1][4].tint, Tint::Yellow);
            assert_eq!(texts(&rows[2]), vec!["11", "2", "9", "-", " 20.0"]);
            assert_eq!(rows[2][4].tint, Tint::Red);
            assert_eq!(texts(&memory), vec!["Memory locality: no data"]);
            assert_eq!(detail_header().len(), rows[0].len());
            assert_eq!(detail_widths().len(), rows[0].len());
        }
        DetailView::NoData(_) => panic!("no detail"),
    }
}

#[test]
fn detail_without_vcpus() {
    let mut app = App::new(nodes());
    app.refresh(&host(), &[process(1, "a", 1.0, ProcStatus::Run)], SEC);
    app.on_key(Key::Enter);
    app.recompute_detail(&DetailReading { threads: Vec::new(), numa: NumaReading::Failed }, SEC);
    match render_detail(app.detail(), app.node_count()) {
        DetailView::Shown(rows, _) => assert_eq!(
            looks(&rows[0]),
            vec![(
                "No vCPU threads found (non-KVM accelerator, or guest just stopped)",
                Tint::DarkGray,
                Weight::Italic
            )]
        ),
        DetailView::NoData(_) => panic!("no detail"),
    }
}

#[test]
fn memory_lines() {
    let one = |s: &str, tint: Tint| vec![(s.to_string(), tint, Weight::Normal)];
    assert_eq!(
        memory_of("N0=1", HashMap::new(), false),
        one("Memory locality: single-node host (N/A)", Tint::DarkGray)
    );
    assert_eq!(
        memory_of("", nodes(), true),
        one(
            "Memory locality: permission denied — needs CAP_SYS_PTRACE (reinstall/upgrade abyss-top)",
            Tint::Red
        )
    );
    assert_eq!(memory_of("N0=0", nodes(), false), one("Memory locality: no data", Tint::DarkGray));
    // Five percent is no split; more is.
    let texts: Vec<String> =
        memory_of("N1=5 N0=95", nodes(), false).into_iter().map(|p| p.0).collect();
    assert_eq!(texts, vec!["Memory locality: ", "node0 95%", "  ", "node1 5%"]);
    let line = memory_of("N1=6 N0=94", nodes(), false);
    assert_eq!(line.last(), Some(&("  [split]".to_string(), Tint::Red, Weight::Bold)));
    // A tie goes to the even number.
    let texts: Vec<String> =
        memory_of("N0=1 N1=199", nodes(), false).into_iter().map(|p| p.0).collect();
    assert_eq!(texts[1], format!("node0 {:.0}%", (1f64 / 200f64 * 100.0) as f32));
    assert_eq!(texts[3], format!("node1 {:.0}%", (199f64 / 200f64 * 100.0) as f32));
}

#[test]
fn panes_of_a_large_terminal() {
    let p = panes(AREA, false);
    assert_eq!(p.title, Area { x: 0, y: 0, width: 120, height: 3 });
    assert_eq!(p.table, Area { x: 0, y: 3, width: 120, height: 34 });
    assert_eq!(p.footer, Area { x: 0, y: 37, width: 120, height: 3 });
    assert!(p.detail.is_none());
    let p = panes(AREA, true);
    let d = p.detail.unwrap();
    assert_eq!(p.table.height + d.frame.height, 34);
    assert_eq!(p.table, Area { x: 0, y: 3, width: 120, height: 19 });
    assert_eq!(d.frame, Area { x: 0, y: 22, width: 120, height: 15 });
    assert_eq!(d.table, Area { x: 1, y: 23, width: 118, height: 12 });
    assert_eq!(d.memory, Area { x: 1, y: 35, width: 118, height: 1 });
}

#[test]
fn the_screen_has_the_panes_of_its_terminal() {
    let mut app = App::new(HashMap::new());
    app.refresh(&host(), &[process(1, "a", 1.0, ProcStatus::Run)], SEC);
    let p = render(&app, AREA).panes;
    assert_eq!(p.title, Area { x: 0, y: 0, width: 120, height: 3 });
    assert_eq!(p.table, Area { x: 0, y: 3, width: 120, height: 34 });
    assert_eq!(p.footer, Area { x: 0, y: 37, width: 120, height: 3 });
    app.on_key(Key::Enter);
    let p = render(&app, AREA).panes;
    assert_eq!(p.table, Area { x: 0, y: 3, width: 120, height: 19 });
    let d = p.detail.unwrap();
    assert_eq!(d.frame, Area { x: 0, y: 22, width: 120, height: 15 });
    assert_eq!(d.table, Area { x: 1, y: 23, width: 118, height: 12 });
    assert_eq!(d.memory, Area { x: 1, y: 35, width: 118, height: 1 });
}

#[test]
fn panes_are_exact_where_they_fit() {
    for height in (11..500u16).chain((500..65000).step_by(1777)) {
        for (x, y, width) in [(0, 0, 80), (5, 9, 1), (1, 65000, 200)] {
            if y as u32 + height as u32 > 65535 {
                continue;
            }
            let area = Area { x, y, width, height };
            let p = panes(area, false);
            assert_eq!(p.title, Area { height: 3, ..area });
            assert_eq!(p.table, Area { y: y + 3, height: height - 6, ..area });
            assert_eq!(p.footer, Area { y: y + height - 3, height: 3, ..area });
            let p = panes(area, true);
            assert_eq!(p.title, Area { height: 3, ..area });
            assert_eq!(p.footer, Area { y: y + height - 3, height: 3, ..area });
            let d = p.detail.unwrap();
            let above = (55 * (height as u32 - 6) + 50) / 100;
            assert_eq!(p.table, Area { y: y + 3, height: above as u16, ..area });
            let below = height - 6 - above as u16;
            assert_eq!(d.frame, Area { y: y + 3 + above as u16, height: below, ..area });
            if d.frame.height >= 6 {
                assert_eq!(d.memory.height, 1);
                assert_eq!(d.memory.y, d.frame.y + d.frame.height - 2);
                assert_eq!(d.table.y, d.frame.y + 1);
                assert_eq!(d.table.height, d.frame.height - 3);
            }
        }
    }
}

#[test]
fn panes_lie_in_any_terminal() {
    let within = |a: Area, b: Area| {
        a.x == b.x
            && a.width == b.width
            && b.y <= a.y
            && a.y as u32 + a.height as u32 <= b.y.saturating_add(b.height) as u32
    };
    let above = |a: Area, b: Area| a.y as u32 + a.height as u32 <= b.y as u32;
    for height in 0..60u16 {
        for (x, y, width) in [(0, 0, 0), (0, 0, 1), (3, 7, 100), (65535, 65530, 9), (65500, 65535, 50)] {
            let area = Area { x, y, width, height };
            let p = panes(area, false);
            assert!(within(p.title, area) && within(p.table, area) && within(p.footer, area));
            assert!(above(p.title, p.table) && above(p.table, p.footer));
            let p = panes(area, true);
            let d = p.detail.unwrap();
            assert!(within(p.title, area) && within(p.table, area) && within(p.footer, area));
            assert!(within(d.frame, area) && above(p.table, d.frame) && above(d.frame, p.footer));
            let inner = Area {
                x: (d.frame.x as u32 + 1).min(d.frame.x.saturating_add(d.frame.width) as u32) as u16,
                y: (d.frame.y as u32 + 1).min(d.frame.y.saturating_add(d.frame.height) as u32) as u16,
                width: d.frame.width.saturating_sub(2),
                height: d.frame.height.saturating_sub(2),
            };
            assert!(within(d.table, inner) && within(d.memory, inner) && above(d.table, d.memory));
        }
    }
}

#[test]
fn column_widths() {
    assert_eq!(table_widths()[1], Size::Percentage(22));
    assert_eq!(table_widths()[0], Size::Length(8));
    assert_eq!(table_header()[8], "NET RX/TX");
    assert_eq!(detail_header(), vec!["TID", "vCPU", "pCPU", "NUMA", "wait %"]);
    assert_eq!(detail_widths()[4], Size::Length(8));
}
