//! What the screen shows: texts, colours and where they stand.

use vstd::prelude::*;
use crate::counters;
use crate::figures;
use crate::float;
use crate::float::Float;
use crate::libvirt;
use crate::libvirt::DomainState;
use crate::model;
use crate::model::{HostStats, SortBy, VCpuThread, VmDetail, VmStats};
use crate::monitor;
use crate::monitor::{App, GuestLife};
use crate::panes;
use crate::panes::{Area, Panes, Size};
use crate::rates;
use crate::single;
use crate::single::F32;
use crate::sort;
use crate::state;
use crate::state::GuestState;
use crate::text;

verus! {

// ---------------------------------------------------------------------------
// Pieces of text

/// The colour of a text.
#[derive(Debug, Clone, Copy, PartialEq, Eq, Structural)]
pub enum Tint {
    /// That of its surroundings.
    Plain,
    White,
    Cyan,
    Yellow,
    Green,
    Red,
    Magenta,
    LightBlue,
    Gray,
    DarkGray,
}

/// How a text is written.
#[derive(Debug, Clone, Copy, PartialEq, Eq, Structural)]
pub enum Weight {
    Normal,
    Bold,
    Italic,
}

/// A text in one colour.
#[derive(Debug)]
pub struct Piece {
    pub text: String,
    pub tint: Tint,
    pub weight: Weight,
}

/// A text in one colour, as a mathematical value.
#[verifier::ext_equal]
pub ghost struct Fragment {
    pub text: Seq<char>,
    pub tint: Tint,
    pub weight: Weight,
}

impl View for Piece {
    type V = Fragment;

    open spec fn view(&self) -> Fragment {
        Fragment { text: self.text@, tint: self.tint, weight: self.weight }
    }
}

/// A fragment in the colour of its surroundings.
pub open spec fn plain(text: Seq<char>) -> Fragment {
    Fragment { text, tint: Tint::Plain, weight: Weight::Normal }
}

/// A fragment in a colour.
pub open spec fn tinted(text: Seq<char>, tint: Tint) -> Fragment {
    Fragment { text, tint, weight: Weight::Normal }
}

/// A bold fragment in a colour.
pub open spec fn bold(text: Seq<char>, tint: Tint) -> Fragment {
    Fragment { text, tint, weight: Weight::Bold }
}

/// A fragment in italics in a colour.
pub open spec fn italic(text: Seq<char>, tint: Tint) -> Fragment {
    Fragment { text, tint, weight: Weight::Italic }
}

/// The views of rows.
pub open spec fn row_views(rows: Seq<Vec<Piece>>) -> Seq<Seq<Fragment>> {
    rows.map_values(|r: Vec<Piece>| sort::views(r@))
}

fn piece(s: &str, tint: Tint, weight: Weight) -> (r: Piece)
    ensures
        r@ == (Fragment { text: s@, tint, weight }),
{
    let c = text::to_chars(s);
    Piece { text: text::to_text(c.as_slice()), tint, weight }
}

fn piece_of(s: &[char], tint: Tint, weight: Weight) -> (r: Piece)
    ensures
        r@ == (Fragment { text: s@, tint, weight }),
{
    Piece { text: text::to_text(s), tint, weight }
}

fn number_piece(n: u64) -> (r: Piece)
    ensures
        r@ == plain(figures::decimal(n as nat)),
{
    Piece { text: figures::number_text(n), tint: Tint::Plain, weight: Weight::Normal }
}

// ---------------------------------------------------------------------------
// Title

/// A number of guests, such as `1 VM` or `3 VMs`.
pub open spec fn vm_count_text(n: nat) -> Seq<char> {
    figures::decimal(n) + " VM"@ + if n == 1 {
        Seq::empty()
    } else {
        "s"@
    }
}

fn vm_count_chars(n: usize) -> (r: Vec<char>)
    ensures
        r@ == vm_count_text(n as nat),
{
    let mut out: Vec<char> = Vec::new();
    figures::append_number(&mut out, n as u64);
    figures::append(&mut out, " VM");
    if n != 1 {
        figures::append(&mut out, "s");
    }
    assert(out@ =~= vm_count_text(n as nat));
    out
}

/// The title: the name of the program and the number of guests.
pub open spec fn title(n: nat) -> Seq<Fragment> {
    seq![
        bold("Abyss-Top"@, Tint::Cyan),
        plain(" | KVM Hypervisor Monitor  "@),
        tinted("["@ + vm_count_text(n) + "]"@, Tint::Yellow),
    ]
}

/// The title.
pub fn render_title(vm_count: usize) -> (r: Vec<Piece>)
    ensures
        sort::views(r@) == title(vm_count as nat),
{
    let mut count: Vec<char> = Vec::new();
    figures::append(&mut count, "[");
    let n = vm_count_chars(vm_count);
    figures::append_chars(&mut count, n.as_slice());
    figures::append(&mut count, "]");
    assert(count@ =~= "["@ + vm_count_text(vm_count as nat) + "]"@);
    let r = vec![
        piece("Abyss-Top", Tint::Cyan, Weight::Bold),
        piece(" | KVM Hypervisor Monitor  ", Tint::Plain, Weight::Normal),
        piece_of(count.as_slice(), Tint::Yellow, Weight::Normal),
    ];
    assert(sort::views(r@) =~= title(vm_count as nat));
    r
}

// ---------------------------------------------------------------------------
// Guests

/// The title of the table of guests, which names their order.
pub open spec fn table_title(by: SortBy) -> Seq<char> {
    " Guests (sorted by "@ + by.name() + ") "@
}

/// The colour of a load in percent: red from 80 on, yellow from 40 on, green below.
pub open spec fn load_tint(pct: F32) -> Tint {
    if pct.at_least(80) {
        Tint::Red
    } else if pct.at_least(40) {
        Tint::Yellow
    } else {
        Tint::Green
    }
}

fn tint_of_load(pct: F32) -> (r: Tint)
    ensures
        r == load_tint(pct),
{
    if pct.is_at_least(80) {
        Tint::Red
    } else if pct.is_at_least(40) {
        Tint::Yellow
    } else {
        Tint::Green
    }
}

/// The colour of the state of a guest's process.
pub open spec fn state_tint(s: GuestState) -> Tint {
    match s {
        GuestState::Up => Tint::Green,
        GuestState::Io => Tint::Yellow,
        GuestState::Stop | GuestState::Dead => Tint::Red,
    }
}

/// The cell with the state of a guest's process.
pub open spec fn state_cell(life: Option<GuestLife>) -> Fragment {
    match life {
        Some(l) => tinted(l.state.word(), state_tint(l.state)),
        None => tinted("-"@, Tint::Gray),
    }
}

fn render_state(life: Option<GuestLife>) -> (r: Piece)
    ensures
        r@ == state_cell(life),
{
    match life {
        Some(l) => {
            let tint = match l.state {
                GuestState::Up => Tint::Green,
                GuestState::Io => Tint::Yellow,
                GuestState::Stop | GuestState::Dead => Tint::Red,
            };
            piece(l.state.label(), tint, Weight::Normal)
        },
        None => piece("-", Tint::Gray, Weight::Normal),
    }
}

/// The colour of the state of a libvirt domain.
pub open spec fn domain_tint(s: DomainState) -> Tint {
    match s {
        DomainState::Running | DomainState::Idle => Tint::Green,
        DomainState::Paused | DomainState::PmSuspended | DomainState::InShutdown => Tint::Yellow,
        DomainState::ShutOff | DomainState::Crashed => Tint::Red,
        DomainState::NoState => Tint::Gray,
    }
}

/// The cell with the state of a guest's libvirt domain.
pub open spec fn domain_cell(s: Option<DomainState>) -> Fragment {
    match s {
        Some(s) => tinted(s.word(), domain_tint(s)),
        None => tinted("-"@, Tint::Gray),
    }
}

fn render_domain(s: Option<DomainState>) -> (r: Piece)
    ensures
        r@ == domain_cell(s),
{
    match s {
        Some(s) => {
            let tint = match s {
                DomainState::Running | DomainState::Idle => Tint::Green,
                DomainState::Paused | DomainState::PmSuspended | DomainState::InShutdown => {
                    Tint::Yellow
                },
                DomainState::ShutOff | DomainState::Crashed => Tint::Red,
                DomainState::NoState => Tint::Gray,
            };
            piece(s.label(), tint, Weight::Normal)
        },
        None => piece("-", Tint::Gray, Weight::Normal),
    }
}

/// The cell with the time that a guest has been running.
pub open spec fn uptime_cell(life: Option<GuestLife>) -> Fragment {
    match life {
        Some(l) => plain(state::uptime(l.uptime_secs)),
        None => plain("-"@),
    }
}

fn render_uptime(life: Option<GuestLife>) -> (r: Piece)
    ensures
        r@ == uptime_cell(life),
{
    match life {
        Some(l) => Piece {
            text: state::fmt_uptime(l.uptime_secs),
            tint: Tint::Plain,
            weight: Weight::Normal,
        },
        None => piece("-", Tint::Plain, Weight::Normal),
    }
}

/// The last four cells of a row: load, memory, disk and network.
pub open spec fn figure_cells(
    cpu: F32,
    mem_mb: u64,
    disk: (u64, u64),
    net: (u64, u64),
    weight: Weight,
) -> Seq<Fragment> {
    seq![
        Fragment { text: figures::padded(cpu.text(), 6), tint: load_tint(cpu), weight },
        Fragment {
            text: figures::padded(figures::decimal(mem_mb as nat), 8),
            tint: Tint::Plain,
            weight,
        },
        Fragment { text: figures::rates_text(disk.0, disk.1), tint: Tint::Magenta, weight },
        Fragment { text: figures::rates_text(net.0, net.1), tint: Tint::LightBlue, weight },
    ]
}

fn push_figures(
    row: &mut Vec<Piece>,
    cpu: F32,
    mem_mb: u64,
    disk: (u64, u64),
    net: (u64, u64),
    weight: Weight,
)
    ensures
        sort::views(final(row)@) == sort::views(old(row)@) + figure_cells(
            cpu,
            mem_mb,
            disk,
            net,
            weight,
        ),
{
    let ghost before = sort::views(row@);
    let load = cpu.chars();
    let load = figures::pad(load.as_slice(), 6);
    row.push(piece_of(load.as_slice(), tint_of_load(cpu), weight));
    let mut mem: Vec<char> = Vec::new();
    figures::append_number(&mut mem, mem_mb);
    assert(mem@ =~= figures::decimal(mem_mb as nat));
    let mem = figures::pad(mem.as_slice(), 8);
    row.push(piece_of(mem.as_slice(), Tint::Plain, weight));
    row.push(Piece { text: figures::fmt_rw(disk.0, disk.1), tint: Tint::Magenta, weight });
    row.push(Piece { text: figures::fmt_rw(net.0, net.1), tint: Tint::LightBlue, weight });
    assert(sort::views(row@) =~= before + figure_cells(cpu, mem_mb, disk, net, weight));
}

/// The row of a guest.
pub open spec fn guest_row(
    g: model::Guest,
    life: Option<GuestLife>,
    domain: Option<DomainState>,
) -> Seq<Fragment> {
    seq![
        plain(figures::decimal(g.pid as nat)),
        bold(g.name, Tint::White),
        state_cell(life),
        domain_cell(domain),
        uptime_cell(life),
    ] + figure_cells(
        g.cpu_pct,
        g.mem_mb,
        (g.disk_read_bps, g.disk_write_bps),
        (g.net_rx_bps, g.net_tx_bps),
        Weight::Normal,
    )
}

fn render_guest(vm: &VmStats, life: Option<GuestLife>, domain: Option<DomainState>) -> (r: Vec<
    Piece,
>)
    ensures
        sort::views(r@) == guest_row(vm@, life, domain),
{
    let mut row = vec![
        number_piece(vm.pid as u64),
        piece(vm.name.as_str(), Tint::White, Weight::Bold),
        render_state(life),
        render_domain(domain),
        render_uptime(life),
    ];
    let ghost head = sort::views(row@);
    assert(head =~= seq![
        plain(figures::decimal(vm.pid as nat)),
        bold(vm.name@, Tint::White),
        state_cell(life),
        domain_cell(domain),
        uptime_cell(life),
    ]);
    push_figures(
        &mut row,
        vm.cpu_pct,
        vm.mem_mb,
        (vm.disk_read_bps, vm.disk_write_bps),
        (vm.net_rx_bps, vm.net_tx_bps),
        Weight::Normal,
    );
    row
}

/// The sum of one figure over the guests.
pub open spec fn sum(vms: Seq<model::Guest>, figure: spec_fn(model::Guest) -> u64) -> nat
    decreases vms.len(),
{
    if vms.len() == 0 {
        0
    } else {
        sum(vms.drop_last(), figure) + figure(vms.last()) as nat
    }
}

/// The sum of one figure over the guests, but not more than the greatest number.
pub open spec fn total(vms: Seq<model::Guest>, figure: spec_fn(model::Guest) -> u64) -> u64 {
    counters::capped(sum(vms, figure))
}

/// The summed load of the guests in percent, rounded after each.
pub open spec fn total_load(vms: Seq<model::Guest>) -> F32 {
    single::sum(vms.map_values(|g: model::Guest| g.cpu_pct))
}

/// The row with the sums over all guests.
pub open spec fn total_row(vms: Seq<model::Guest>) -> Seq<Fragment> {
    seq![
        bold("TOTAL"@, Tint::Plain),
        bold(vm_count_text(vms.len()), Tint::White),
        plain(""@),
        plain(""@),
        plain(""@),
    ] + figure_cells(
        total_load(vms),
        total(vms, |g: model::Guest| g.mem_mb),
        (
            total(vms, |g: model::Guest| g.disk_read_bps),
            total(vms, |g: model::Guest| g.disk_write_bps),
        ),
        (
            total(vms, |g: model::Guest| g.net_rx_bps),
            total(vms, |g: model::Guest| g.net_tx_bps),
        ),
        Weight::Bold,
    )
}

fn render_total(vms: &[VmStats]) -> (r: Vec<Piece>)
    ensures
        sort::views(r@) == total_row(sort::views(vms@)),
{
    let ghost all = sort::views(vms@);
    let ghost mem_of = |g: model::Guest| g.mem_mb;
    let ghost read_of = |g: model::Guest| g.disk_read_bps;
    let ghost write_of = |g: model::Guest| g.disk_write_bps;
    let ghost rx_of = |g: model::Guest| g.net_rx_bps;
    let ghost tx_of = |g: model::Guest| g.net_tx_bps;
    let ghost loads = all.map_values(|g: model::Guest| g.cpu_pct);
    let mut cpus: Vec<F32> = Vec::new();
    let mut mem: u64 = 0;
    let mut read: u64 = 0;
    let mut write: u64 = 0;
    let mut rx: u64 = 0;
    let mut tx: u64 = 0;
    let mut i: usize = 0;
    while i < vms.len()
        invariant
            i <= vms@.len(),
            all == sort::views(vms@),
            mem_of == (|g: model::Guest| g.mem_mb),
            read_of == (|g: model::Guest| g.disk_read_bps),
            write_of == (|g: model::Guest| g.disk_write_bps),
            rx_of == (|g: model::Guest| g.net_rx_bps),
            tx_of == (|g: model::Guest| g.net_tx_bps),
            loads == all.map_values(|g: model::Guest| g.cpu_pct),
            cpus@ == loads.take(i as int),
            mem == total(all.take(i as int), mem_of),
            read == total(all.take(i as int), read_of),
            write == total(all.take(i as int), write_of),
            rx == total(all.take(i as int), rx_of),
            tx == total(all.take(i as int), tx_of),
        decreases vms@.len() - i,
    {
        proof {
            assert(all.take(i + 1).drop_last() =~= all.take(i as int));
            assert(all.take(i + 1).last() == vms@[i as int]@);
            assert(loads.take(i + 1) =~= loads.take(i as int).push(loads[i as int]));
        }
        cpus.push(vms[i].cpu_pct);
        mem = mem.saturating_add(vms[i].mem_mb);
        read = read.saturating_add(vms[i].disk_read_bps);
        write = write.saturating_add(vms[i].disk_write_bps);
        rx = rx.saturating_add(vms[i].net_rx_bps);
        tx = tx.saturating_add(vms[i].net_tx_bps);
        i += 1;
    }
    assert(all.take(all.len() as int) =~= all);
    assert(loads.take(loads.len() as int) =~= loads);
    let cpu = single::sum_rounded(cpus.as_slice());
    let count = vm_count_chars(vms.len());
    let mut row = vec![
        piece("TOTAL", Tint::Plain, Weight::Bold),
        piece_of(count.as_slice(), Tint::White, Weight::Bold),
        piece("", Tint::Plain, Weight::Normal),
        piece("", Tint::Plain, Weight::Normal),
        piece("", Tint::Plain, Weight::Normal),
    ];
    assert(sort::views(row@) =~= seq![
        bold("TOTAL"@, Tint::Plain),
        bold(vm_count_text(all.len()), Tint::White),
        plain(""@),
        plain(""@),
        plain(""@),
    ]);
    push_figures(&mut row, cpu, mem, (read, write), (rx, tx), Weight::Bold);
    row
}

/// The row that stands for guests where there are none.
pub open spec fn empty_row() -> Seq<Fragment> {
    seq![
        plain("-"@),
        italic("No running QEMU/KVM guests detected"@, Tint::DarkGray),
        plain("-"@),
        plain("-"@),
        plain("-"@),
        plain("-"@),
        plain("-"@),
        plain("-"@),
        plain("-"@),
    ]
}

fn render_empty() -> (r: Vec<Piece>)
    ensures
        sort::views(r@) == empty_row(),
{
    let r = vec![
        piece("-", Tint::Plain, Weight::Normal),
        piece("No running QEMU/KVM guests detected", Tint::DarkGray, Weight::Italic),
        piece("-", Tint::Plain, Weight::Normal),
        piece("-", Tint::Plain, Weight::Normal),
        piece("-", Tint::Plain, Weight::Normal),
        piece("-", Tint::Plain, Weight::Normal),
        piece("-", Tint::Plain, Weight::Normal),
        piece("-", Tint::Plain, Weight::Normal),
        piece("-", Tint::Plain, Weight::Normal),
    ];
    assert(sort::views(r@) =~= empty_row());
    r
}

/// The rows of the guests, in order.
pub open spec fn guest_rows(s: monitor::State) -> Seq<Seq<Fragment>> {
    s.vms.map_values(
        |g: model::Guest|
            guest_row(
                g,
                monitor::lookup(s.lives, g.pid),
                libvirt::state_named(s.feed.domains, g.name),
            ),
    )
}

/// The rows of the table of guests: one for each guest, an empty one and one with the sums.
pub open spec fn table_rows(s: monitor::State) -> Seq<Seq<Fragment>> {
    if s.vms.len() == 0 {
        seq![empty_row()]
    } else {
        guest_rows(s).push(Seq::empty()).push(total_row(s.vms))
    }
}

/// The rows of the table of guests.
pub fn render_table(app: &App) -> (r: Vec<Vec<Piece>>)
    ensures
        row_views(r@) == table_rows(app@),
{
    let vms = app.vms();
    let mut rows: Vec<Vec<Piece>> = Vec::new();
    if vms.len() == 0 {
        rows.push(render_empty());
        assert(row_views(rows@) =~= table_rows(app@));
        return rows;
    }
    let mut i: usize = 0;
    assert(row_views(rows@) =~= guest_rows(app@).take(0));
    while i < vms.len()
        invariant
            i <= vms@.len(),
            sort::views(vms@) == app@.vms,
            row_views(rows@) == guest_rows(app@).take(i as int),
        decreases vms@.len() - i,
    {
        let ghost before = row_views(rows@);
        let life = app.life_of(vms[i].pid);
        let domain = app.domain_state(vms[i].name.as_str());
        let row = render_guest(&vms[i], life, domain);
        let ghost cells = sort::views(row@);
        rows.push(row);
        proof {
            assert(app@.vms[i as int] == vms@[i as int]@);
            assert(row_views(rows@) =~= before.push(cells));
            assert(guest_rows(app@).take(i + 1) =~= guest_rows(app@).take(i as int).push(
                guest_rows(app@)[i as int],
            ));
        }
        i += 1;
    }
    assert(guest_rows(app@).take(vms@.len() as int) =~= guest_rows(app@));
    let ghost before = row_views(rows@);
    let blank: Vec<Piece> = Vec::new();
    assert(sort::views(blank@) =~= Seq::<Fragment>::empty());
    rows.push(blank);
    let sums = render_total(vms);
    let ghost cells = sort::views(sums@);
    rows.push(sums);
    proof {
        assert(row_views(rows@) =~= before.push(Seq::empty()).push(cells));
    }
    rows
}

/// The headings of the table of guests.
pub open spec fn table_heads() -> Seq<Seq<char>> {
    seq![
        "PID"@,
        "VM Name"@,
        "STATE"@,
        "LIBVIRT"@,
        "UPTIME"@,
        "CPU %"@,
        "MEM (MB)"@,
        "DISK R/W"@,
        "NET RX/TX"@,
    ]
}

/// The headings of the table of guests.
pub fn table_header() -> (r: Vec<&'static str>)
    ensures
        text::strs(r@) == table_heads(),
{
    let r = vec![
        "PID",
        "VM Name",
        "STATE",
        "LIBVIRT",
        "UPTIME",
        "CPU %",
        "MEM (MB)",
        "DISK R/W",
        "NET RX/TX",
    ];
    assert(text::strs(r@) =~= table_heads());
    r
}

/// The widths of the columns of the table of guests.
pub fn table_widths() -> (r: Vec<Size>)
    ensures
        r@ == seq![
            Size::Length(8),
            Size::Percentage(22),
            Size::Length(6),
            Size::Length(8),
            Size::Length(8),
            Size::Length(8),
            Size::Length(10),
            Size::Length(24),
            Size::Length(24),
        ],
{
    vec![
        Size::Length(8),
        Size::Percentage(22),
        Size::Length(6),
        Size::Length(8),
        Size::Length(8),
        Size::Length(8),
        Size::Length(10),
        Size::Length(24),
        Size::Length(24),
    ]
}

fn title_of_table(by: SortBy) -> (r: String)
    ensures
        r@ == table_title(by),
{
    let mut out: Vec<char> = Vec::new();
    figures::append(&mut out, " Guests (sorted by ");
    figures::append(&mut out, by.label());
    figures::append(&mut out, ") ");
    assert(out@ =~= table_title(by));
    text::to_text(out.as_slice())
}

// ---------------------------------------------------------------------------
// Detail

/// The colour of a waiting time in percent: red from 20 on, yellow from 5 on, green below.
pub open spec fn wait_tint(pct: float::Dyadic) -> Tint {
    if float::at_least(pct, 20) {
        Tint::Red
    } else if float::at_least(pct, 5) {
        Tint::Yellow
    } else {
        Tint::Green
    }
}

/// The row of a vCPU.
pub open spec fn vcpu_row(v: model::VCpu) -> Seq<Fragment> {
    seq![
        plain(figures::decimal(v.tid as nat)),
        plain(figures::decimal(v.vcpu_index as nat)),
        plain(figures::decimal(v.cur_cpu as nat)),
        plain(
            match v.numa_node {
                Some(node) => figures::decimal(node as nat),
                None => "-"@,
            },
        ),
        tinted(figures::padded(figures::tenths(v.wait_pct), 5), wait_tint(v.wait_pct)),
    ]
}

fn render_vcpu(v: &VCpuThread) -> (r: Vec<Piece>)
    ensures
        sort::views(r@) == vcpu_row(v@),
{
    let tint = if v.wait_pct.is_at_least(20) {
        Tint::Red
    } else if v.wait_pct.is_at_least(5) {
        Tint::Yellow
    } else {
        Tint::Green
    };
    let wait = figures::tenths_chars(v.wait_pct);
    let wait = figures::pad(wait.as_slice(), 5);
    let node = match v.numa_node {
        Some(node) => number_piece(node as u64),
        None => piece("-", Tint::Plain, Weight::Normal),
    };
    let r = vec![
        number_piece(v.tid as u64),
        number_piece(v.vcpu_index as u64),
        number_piece(v.cur_cpu as u64),
        node,
        piece_of(wait.as_slice(), tint, Weight::Normal),
    ];
    assert(sort::views(r@) =~= vcpu_row(v@));
    r
}

/// The rows of the vCPUs, or one that says that there are none.
pub open spec fn vcpu_rows(vs: Seq<model::VCpu>) -> Seq<Seq<Fragment>> {
    if vs.len() == 0 {
        seq![
            seq![
                italic(
                    "No vCPU threads found (non-KVM accelerator, or guest just stopped)"@,
                    Tint::DarkGray,
                ),
            ],
        ]
    } else {
        vs.map_values(|v: model::VCpu| vcpu_row(v))
    }
}

fn render_vcpus(vs: &[VCpuThread]) -> (r: Vec<Vec<Piece>>)
    ensures
        row_views(r@) == vcpu_rows(sort::views(vs@)),
{
    let ghost all = sort::views(vs@);
    let mut rows: Vec<Vec<Piece>> = Vec::new();
    if vs.len() == 0 {
        let row = vec![
            piece(
                "No vCPU threads found (non-KVM accelerator, or guest just stopped)",
                Tint::DarkGray,
                Weight::Italic,
            ),
        ];
        proof {
            assert(sort::views(row@) =~= seq![
                italic(
                    "No vCPU threads found (non-KVM accelerator, or guest just stopped)"@,
                    Tint::DarkGray,
                ),
            ]);
        }
        rows.push(row);
        assert(row_views(rows@) =~= vcpu_rows(all));
        return rows;
    }
    let ghost wanted = all.map_values(|v: model::VCpu| vcpu_row(v));
    let mut i: usize = 0;
    assert(row_views(rows@) =~= wanted.take(0));
    while i < vs.len()
        invariant
            i <= vs@.len(),
            all == sort::views(vs@),
            wanted == all.map_values(|v: model::VCpu| vcpu_row(v)),
            row_views(rows@) == wanted.take(i as int),
        decreases vs@.len() - i,
    {
        let ghost before = row_views(rows@);
        let row = render_vcpu(&vs[i]);
        let ghost cells = sort::views(row@);
        rows.push(row);
        proof {
            assert(all[i as int] == vs@[i as int]@);
            assert(row_views(rows@) =~= before.push(cells));
            assert(wanted.take(i + 1) =~= wanted.take(i as int).push(wanted[i as int]));
        }
        i += 1;
    }
    assert(wanted.take(vs@.len() as int) =~= wanted);
    rows
}

/// The share of one node, such as `node0 97%`.
pub open spec fn node_text(share: (u32, float::Dyadic)) -> Seq<char> {
    "node"@ + figures::decimal(share.0 as nat) + " "@ + figures::units(share.1) + "%"@
}

/// The shares of nodes, with spaces between.
pub open spec fn node_fragments(shares: Seq<(u32, float::Dyadic)>) -> Seq<Fragment>
    decreases shares.len(),
{
    if shares.len() == 0 {
        Seq::empty()
    } else {
        let before = node_fragments(shares.drop_last());
        let own = tinted(node_text(shares.last()), Tint::White);
        if shares.len() == 1 {
            before.push(own)
        } else {
            before.push(plain("  "@)).push(own)
        }
    }
}

/// The number of nodes with more than 5 percent of the memory.
pub open spec fn large_shares(shares: Seq<(u32, float::Dyadic)>) -> nat {
    shares.filter(|s: (u32, float::Dyadic)| float::exceeds(s.1, 5)).len()
}

/// The line on the placement of the guest's memory.
pub open spec fn memory_line(d: model::Detail, node_count: nat) -> Seq<Fragment> {
    if node_count <= 1 {
        seq![tinted("Memory locality: single-node host (N/A)"@, Tint::DarkGray)]
    } else if d.denied {
        seq![
            tinted(
                "Memory locality: permission denied — needs CAP_SYS_PTRACE (reinstall/upgrade abyss-top)"@,
                Tint::Red,
            ),
        ]
    } else if d.mem_by_node.len() == 0 {
        seq![tinted("Memory locality: no data"@, Tint::DarkGray)]
    } else {
        let line = seq![tinted("Memory locality: "@, Tint::Cyan)] + node_fragments(d.mem_by_node);
        if large_shares(d.mem_by_node) > 1 {
            line.push(bold("  [split]"@, Tint::Red))
        } else {
            line
        }
    }
}

fn render_node(share: &(u32, Float)) -> (r: Piece)
    ensures
        r@ == tinted(node_text((share.0, share.1@)), Tint::White),
{
    let mut out: Vec<char> = Vec::new();
    figures::append(&mut out, "node");
    figures::append_number(&mut out, share.0 as u64);
    figures::append(&mut out, " ");
    let pct = figures::units_chars(share.1);
    figures::append_chars(&mut out, pct.as_slice());
    figures::append(&mut out, "%");
    assert(out@ =~= node_text((share.0, share.1@)));
    piece_of(out.as_slice(), Tint::White, Weight::Normal)
}

fn render_memory(d: &VmDetail, node_count: usize) -> (r: Vec<Piece>)
    ensures
        sort::views(r@) == memory_line(d@, node_count as nat),
{
    let mut line: Vec<Piece> = Vec::new();
    if node_count <= 1 {
        line.push(
            piece("Memory locality: single-node host (N/A)", Tint::DarkGray, Weight::Normal),
        );
        assert(sort::views(line@) =~= memory_line(d@, node_count as nat));
        return line;
    }
    if d.denied {
        line.push(
            piece(
                "Memory locality: permission denied — needs CAP_SYS_PTRACE (reinstall/upgrade abyss-top)",
                Tint::Red,
                Weight::Normal,
            ),
        );
        assert(sort::views(line@) =~= memory_line(d@, node_count as nat));
        return line;
    }
    let ghost shares = model::shares(d.mem_by_node@);
    if d.mem_by_node.len() == 0 {
        line.push(piece("Memory locality: no data", Tint::DarkGray, Weight::Normal));
        assert(sort::views(line@) =~= memory_line(d@, node_count as nat));
        return line;
    }
    line.push(piece("Memory locality: ", Tint::Cyan, Weight::Normal));
    let ghost head = seq![tinted("Memory locality: "@, Tint::Cyan)];
    let ghost is_large = |s: (u32, float::Dyadic)| float::exceeds(s.1, 5);
    let mut large: usize = 0;
    let mut i: usize = 0;
    proof {
        assert(sort::views(line@) =~= head + node_fragments(shares.take(0)));
        assert(shares.take(0).filter(is_large).len() == 0) by {
            reveal(Seq::filter);
        }
    }
    while i < d.mem_by_node.len()
        invariant
            i <= d.mem_by_node@.len(),
            shares == model::shares(d.mem_by_node@),
            is_large == (|s: (u32, float::Dyadic)| float::exceeds(s.1, 5)),
            large <= i,
            large == shares.take(i as int).filter(is_large).len(),
            sort::views(line@) == head + node_fragments(shares.take(i as int)),
        decreases d.mem_by_node@.len() - i,
    {
        let ghost before = sort::views(line@);
        let share = d.mem_by_node[i];
        proof {
            assert(shares[i as int] == (share.0, share.1@));
            assert(shares.take(i + 1).drop_last() =~= shares.take(i as int));
            assert(shares.take(i + 1) =~= shares.take(i as int).push(shares[i as int]));
            shares.take(i as int).lemma_filter_push(shares[i as int], is_large);
        }
        if i > 0 {
            line.push(piece("  ", Tint::Plain, Weight::Normal));
        }
        line.push(render_node(&share));
        if share.1.is_above(5) {
            large += 1;
        }
        proof {
            let own = tinted(node_text(shares[i as int]), Tint::White);
            if i > 0 {
                assert(sort::views(line@) =~= before.push(plain("  "@)).push(own));
            } else {
                assert(sort::views(line@) =~= before.push(own));
            }
            assert(sort::views(line@) =~= head + node_fragments(shares.take(i + 1)));
        }
        i += 1;
    }
    assert(shares.take(shares.len() as int) =~= shares);
    let ghost before = sort::views(line@);
    if large > 1 {
        line.push(piece("  [split]", Tint::Red, Weight::Bold));
        assert(sort::views(line@) =~= before.push(bold("  [split]"@, Tint::Red)));
    }
    line
}

/// What the detail view shows.
pub enum DetailView {
    /// Nothing was read yet.
    NoData(Vec<Piece>),
    /// The rows of the vCPUs and the line on memory.
    Shown(Vec<Vec<Piece>>, Vec<Piece>),
}

/// What the detail view shows, as a mathematical value.
pub ghost enum DetailText {
    NoData(Seq<Fragment>),
    Shown(Seq<Seq<Fragment>>, Seq<Fragment>),
}

impl View for DetailView {
    type V = DetailText;

    open spec fn view(&self) -> DetailText {
        match self {
            DetailView::NoData(line) => DetailText::NoData(sort::views(line@)),
            DetailView::Shown(rows, line) => DetailText::Shown(
                row_views(rows@),
                sort::views(line@),
            ),
        }
    }
}

/// What the detail view shows of a detail.
pub open spec fn detail_text(detail: Option<model::Detail>, node_count: nat) -> DetailText {
    match detail {
        Some(d) => DetailText::Shown(vcpu_rows(d.vcpus), memory_line(d, node_count)),
        None => DetailText::NoData(seq![italic("No data yet…"@, Tint::DarkGray)]),
    }
}

/// What the detail view shows: for each vCPU its thread, physical CPU, NUMA node and waiting time,
/// and where the guest's memory lies.
pub fn render_detail(detail: Option<&VmDetail>, node_count: usize) -> (r: DetailView)
    ensures
        r@ == detail_text(
            match detail {
                Some(d) => Some(d@),
                None => None,
            },
            node_count as nat,
        ),
{
    match detail {
        Some(d) => DetailView::Shown(
            render_vcpus(d.vcpus.as_slice()),
            render_memory(d, node_count),
        ),
        None => {
            let line = vec![piece("No data yet…", Tint::DarkGray, Weight::Italic)];
            assert(sort::views(line@) =~= seq![italic("No data yet…"@, Tint::DarkGray)]);
            DetailView::NoData(line)
        },
    }
}

/// The headings of the table of vCPUs.
pub open spec fn detail_heads() -> Seq<Seq<char>> {
    seq!["TID"@, "vCPU"@, "pCPU"@, "NUMA"@, "wait %"@]
}

/// The headings of the table of vCPUs.
pub fn detail_header() -> (r: Vec<&'static str>)
    ensures
        text::strs(r@) == detail_heads(),
{
    let r = vec!["TID", "vCPU", "pCPU", "NUMA", "wait %"];
    assert(text::strs(r@) =~= detail_heads());
    r
}

/// The widths of the columns of the table of vCPUs.
pub fn detail_widths() -> (r: Vec<Size>)
    ensures
        r@ == seq![
            Size::Length(8),
            Size::Length(6),
            Size::Length(6),
            Size::Length(6),
            Size::Length(8),
        ],
{
    vec![Size::Length(8), Size::Length(6), Size::Length(6), Size::Length(6), Size::Length(8)]
}

// ---------------------------------------------------------------------------
// Footer

/// The memory of the host, such as `14336/32768 MB (43.8%)`.
pub open spec fn memory_text(used: u64, total: u64) -> Seq<char> {
    figures::decimal(used as nat) + "/"@ + figures::decimal(total as nat) + " MB ("@
        + figures::tenths(rates::used_share(used, total)) + "%)"@
}

/// The footer: load and memory of the host, and the keys.
pub open spec fn footer(host: HostStats) -> Seq<Fragment> {
    seq![
        tinted("Host "@, Tint::DarkGray),
        tinted("CPU "@, Tint::Cyan),
        bold(figures::padded(host.cpu_pct.text(), 5) + "%"@, Tint::White),
        plain("   "@),
        tinted("RAM "@, Tint::Cyan),
        bold(memory_text(host.mem_used_mb, host.mem_total_mb), Tint::White),
        plain("   "@),
        bold(
            "↑↓ select · [Enter] detail · sort [C]pu [D]isk [N]et [M]em · [Q]uit"@,
            Tint::Yellow,
        ),
    ]
}

/// The footer.
pub fn render_footer(host: HostStats) -> (r: Vec<Piece>)
    ensures
        sort::views(r@) == footer(host),
{
    let load = host.cpu_pct.chars();
    let mut load = figures::pad(load.as_slice(), 5);
    figures::append(&mut load, "%");
    let mut mem: Vec<char> = Vec::new();
    figures::append_number(&mut mem, host.mem_used_mb);
    figures::append(&mut mem, "/");
    figures::append_number(&mut mem, host.mem_total_mb);
    figures::append(&mut mem, " MB (");
    let pct = figures::tenths_chars(rates::used_percent(host.mem_used_mb, host.mem_total_mb));
    figures::append_chars(&mut mem, pct.as_slice());
    figures::append(&mut mem, "%)");
    assert(mem@ =~= memory_text(host.mem_used_mb, host.mem_total_mb));
    let r = vec![
        piece("Host ", Tint::DarkGray, Weight::Normal),
        piece("CPU ", Tint::Cyan, Weight::Normal),
        piece_of(load.as_slice(), Tint::White, Weight::Bold),
        piece("   ", Tint::Plain, Weight::Normal),
        piece("RAM ", Tint::Cyan, Weight::Normal),
        piece_of(mem.as_slice(), Tint::White, Weight::Bold),
        piece("   ", Tint::Plain, Weight::Normal),
        piece(
            "↑↓ select · [Enter] detail · sort [C]pu [D]isk [N]et [M]em · [Q]uit",
            Tint::Yellow,
            Weight::Bold,
        ),
    ];
    assert(sort::views(r@) =~= footer(host));
    r
}

// ---------------------------------------------------------------------------
// The whole screen

/// All that the screen shows.
pub struct Screen {
    pub panes: Panes,
    pub title: Vec<Piece>,
    pub table_title: String,
    pub rows: Vec<Vec<Piece>>,
    pub cursor: Option<usize>,
    /// What the detail view shows, where it is open.
    pub detail: Option<DetailView>,
    pub footer: Vec<Piece>,
}

/// What the screen shows of the monitor, on a terminal of this area.
pub fn render(app: &App, area: Area) -> (r: Screen)
    requires
        app.wf(),
    ensures
        panes::are_panes(r.panes, area, app@.expanded),
        panes::are_laid_out(r.panes, area, app@.expanded),
        sort::views(r.title@) == title(app@.vms.len()),
        r.table_title@ == table_title(app@.sort_by),
        row_views(r.rows@) == table_rows(app@),
        match r.cursor {
            Some(row) => app@.cursor == Some(row as int),
            None => app@.cursor is None,
        },
        match r.detail {
            Some(d) => app@.expanded && d@ == detail_text(
                app@.detail,
                app@.cpu_to_node.values().len(),
            ),
            None => !app@.expanded,
        },
        sort::views(r.footer@) == footer(app@.host),
{
    let detail = if app.expanded() {
        Some(render_detail(app.detail(), app.node_count()))
    } else {
        None
    };
    let vms = app.vms();
    Screen {
        panes: panes::panes(area, app.expanded()),
        title: render_title(vms.len()),
        table_title: title_of_table(app.sort_by()),
        rows: render_table(app),
        cursor: app.cursor(),
        detail,
        footer: render_footer(app.host()),
    }
}

// ---------------------------------------------------------------------------
// Laws

/// The sums do not depend on the order of the guests.
pub proof fn law_sums_ignore_the_order(
    vms: Seq<model::Guest>,
    by: SortBy,
    figure: spec_fn(model::Guest) -> u64,
)
    ensures
        total(sort::sorted(vms, by), figure) == total(vms, figure),
{
    sort::law_every_sequence_can_be_sorted(vms, by);
    lemma_sum_of_multiset(sort::sorted(vms, by), vms, figure);
}

/// Every guest has a row of its own, with a cell for each heading.
pub proof fn law_every_guest_has_a_row(s: monitor::State, i: int)
    requires
        0 <= i < s.vms.len(),
    ensures
        table_rows(s).len() == s.vms.len() + 2,
        table_rows(s)[i].len() == table_heads().len(),
        table_rows(s)[i][0] == plain(figures::decimal(s.vms[i].pid as nat)),
        table_rows(s)[i][1] == bold(s.vms[i].name, Tint::White),
{
    assert(table_rows(s)[i] == guest_rows(s)[i]);
}

/// The row that is marked is that of the selected guest.
pub proof fn law_marked_row_is_the_selected_guest(s: monitor::State)
    requires
        monitor::valid(s),
        s.vms.len() > 0,
    ensures
        s.cursor matches Some(row) && table_rows(s)[row][0] == plain(
            figures::decimal(monitor::selected_guest(s)->0 as nat),
        ),
{
    law_every_guest_has_a_row(s, s.selected);
}

proof fn lemma_sum_of_multiset(
    a: Seq<model::Guest>,
    b: Seq<model::Guest>,
    figure: spec_fn(model::Guest) -> u64,
)
    requires
        a.to_multiset() == b.to_multiset(),
    ensures
        sum(a, figure) == sum(b, figure),
    decreases a.len(),
{
    vstd::seq_lib::to_multiset_len(a);
    vstd::seq_lib::to_multiset_len(b);
    if a.len() > 0 {
        let x = a.last();
        vstd::seq_lib::to_multiset_contains(a, x);
        vstd::seq_lib::to_multiset_contains(b, x);
        assert(a[a.len() - 1] == x);
        assert(a.contains(x));
        assert(b.contains(x));
        let i = choose|i: int| 0 <= i < b.len() && b[i] == x;
        vstd::seq_lib::to_multiset_remove(a, a.len() - 1);
        vstd::seq_lib::to_multiset_remove(b, i);
        assert(a.remove(a.len() - 1) =~= a.drop_last());
        lemma_sum_remove(b, i, figure);
        lemma_sum_of_multiset(a.drop_last(), b.remove(i), figure);
    }
}

proof fn lemma_sum_remove(s: Seq<model::Guest>, i: int, figure: spec_fn(model::Guest) -> u64)
    requires
        0 <= i < s.len(),
    ensures
        sum(s, figure) == sum(s.remove(i), figure) + figure(s[i]) as nat,
    decreases s.len(),
{
    if i < s.len() - 1 {
        lemma_sum_remove(s.drop_last(), i, figure);
        assert(s.remove(i).drop_last() =~= s.drop_last().remove(i));
        assert(s.remove(i).last() == s.last());
    } else {
        assert(s.remove(i) =~= s.drop_last());
    }
}

/// Each cell of a guest's row shows the figure that its heading names: first what is read, then what
/// is written, first what is received, then what is transmitted.
pub proof fn law_cells_show_what_their_headings_name(s: monitor::State, i: int)
    requires
        0 <= i < s.vms.len(),
    ensures
        ({
            let (g, row, heads) = (s.vms[i], table_rows(s)[i], table_heads());
            &&& heads.len() == 9 && row.len() == 9
            &&& heads[0] == "PID"@ && row[0].text == figures::decimal(g.pid as nat)
            &&& heads[1] == "VM Name"@ && row[1].text == g.name
            &&& heads[2] == "STATE"@ && row[2].text == match monitor::lookup(s.lives, g.pid) {
                Some(life) => life.state.word(),
                None => "-"@,
            }
            &&& heads[3] == "LIBVIRT"@ && row[3].text == match libvirt::state_named(
                s.feed.domains,
                g.name,
            ) {
                Some(state) => state.word(),
                None => "-"@,
            }
            &&& heads[4] == "UPTIME"@ && row[4].text == match monitor::lookup(s.lives, g.pid) {
                Some(life) => state::uptime(life.uptime_secs),
                None => "-"@,
            }
            &&& heads[5] == "CPU %"@ && row[5].text == figures::padded(g.cpu_pct.text(), 6)
            &&& heads[6] == "MEM (MB)"@ && row[6].text == figures::padded(
                figures::decimal(g.mem_mb as nat),
                8,
            )
            &&& heads[7] == "DISK R/W"@ && row[7].text == figures::rate_text(g.disk_read_bps) + " / "@
                + figures::rate_text(g.disk_write_bps)
            &&& heads[8] == "NET RX/TX"@ && row[8].text == figures::rate_text(g.net_rx_bps) + " / "@
                + figures::rate_text(g.net_tx_bps)
        }),
{
    assert(table_rows(s)[i] == guest_rows(s)[i]);
}

/// The colours of a guest's row: load is red from 80 percent on, yellow from 40 percent on and green
/// below; disk is magenta and network light blue.
pub proof fn law_colours_of_a_row(s: monitor::State, i: int)
    requires
        0 <= i < s.vms.len(),
    ensures
        ({
            let (load, row) = (s.vms[i].cpu_pct, table_rows(s)[i]);
            &&& row[5].tint == Tint::Red <==> load.at_least(80)
            &&& row[5].tint == Tint::Yellow <==> load.at_least(40) && !load.at_least(80)
            &&& row[5].tint == Tint::Green <==> !load.at_least(40) && !load.at_least(80)
            &&& row[7].tint == Tint::Magenta
            &&& row[8].tint == Tint::LightBlue
            &&& forall|k: int| 0 <= k < 9 && k != 1 ==> (#[trigger] row[k]).weight == Weight::Normal
            &&& row[1].weight == Weight::Bold && row[1].tint == Tint::White
        }),
{
    assert(table_rows(s)[i] == guest_rows(s)[i]);
}

/// The state of a process is green while the guest is up, yellow while it waits for a disk and red
/// where it is stopped or dead. Without a state the cell is grey.
pub proof fn law_colours_of_states(life: GuestLife)
    ensures
        state_cell(Some(life)).tint == Tint::Green <==> life.state == GuestState::Up,
        state_cell(Some(life)).tint == Tint::Yellow <==> life.state == GuestState::Io,
        state_cell(Some(life)).tint == Tint::Red <==> life.state == GuestState::Stop || life.state
            == GuestState::Dead,
        state_cell(None).tint == Tint::Gray,
{
}

/// The state of a domain is green where it runs or idles, yellow where it is paused, suspended or
/// shutting down, and red where it is off or has crashed. Without a state the cell is grey.
pub proof fn law_colours_of_domains(s: DomainState)
    ensures
        domain_cell(Some(s)).tint == Tint::Green <==> s == DomainState::Running || s
            == DomainState::Idle,
        domain_cell(Some(s)).tint == Tint::Yellow <==> s == DomainState::Paused || s
            == DomainState::PmSuspended || s == DomainState::InShutdown,
        domain_cell(Some(s)).tint == Tint::Red <==> s == DomainState::ShutOff || s
            == DomainState::Crashed,
        domain_cell(Some(s)).tint == Tint::Gray <==> s == DomainState::NoState,
        domain_cell(None).tint == Tint::Gray,
{
}

/// The last row shows the sum of each figure over all guests in the cell of the same heading, in bold.
/// An empty row stands above it.
pub proof fn law_total_row_sums_every_figure(s: monitor::State)
    requires
        s.vms.len() > 0,
    ensures
        ({
            let n = s.vms.len() as int;
            let row = table_rows(s)[n + 1];
            let total_of = |figure: spec_fn(model::Guest) -> u64| total(s.vms, figure);
            &&& table_rows(s).len() == n + 2
            &&& table_rows(s)[n].len() == 0
            &&& row.len() == 9
            &&& row[0].text == "TOTAL"@
            &&& row[1].text == vm_count_text(s.vms.len())
            &&& row[2].text == ""@ && row[3].text == ""@ && row[4].text == ""@
            &&& row[5].text == figures::padded(total_load(s.vms).text(), 6)
            &&& row[6].text == figures::padded(
                figures::decimal(total_of(|g: model::Guest| g.mem_mb) as nat),
                8,
            )
            &&& row[7].text == figures::rate_text(total_of(|g: model::Guest| g.disk_read_bps)) + " / "@
                + figures::rate_text(total_of(|g: model::Guest| g.disk_write_bps))
            &&& row[8].text == figures::rate_text(total_of(|g: model::Guest| g.net_rx_bps)) + " / "@
                + figures::rate_text(total_of(|g: model::Guest| g.net_tx_bps))
            &&& row[0].weight == Weight::Bold && row[1].weight == Weight::Bold
            &&& forall|k: int| 5 <= k < 9 ==> (#[trigger] row[k]).weight == Weight::Bold
        }),
{
}

/// The sum of one figure over two groups of guests is that over all, one guest adds its own figure,
/// and none add nothing. A sum that is too large is shown as the greatest number.
pub proof fn law_sums_add_up(
    a: Seq<model::Guest>,
    b: Seq<model::Guest>,
    g: model::Guest,
    figure: spec_fn(model::Guest) -> u64,
)
    ensures
        sum(a + b, figure) == sum(a, figure) + sum(b, figure),
        sum(seq![g], figure) == figure(g),
        sum(Seq::empty(), figure) == 0,
        sum(a, figure) <= u64::MAX ==> total(a, figure) == sum(a, figure),
        sum(a, figure) > u64::MAX ==> total(a, figure) == u64::MAX,
    decreases b.len(),
{
    assert(seq![g].drop_last() =~= Seq::<model::Guest>::empty());
    assert(sum(seq![g].drop_last(), figure) == 0);
    if b.len() == 0 {
        assert(a + b =~= a);
    } else {
        law_sums_add_up(a, b.drop_last(), g, figure);
        assert((a + b).drop_last() =~= a + b.drop_last());
        assert((a + b).last() == b.last());
    }
}

/// For a single guest the last row has the texts of the guest's own row in the cells of load, memory,
/// disk and network. Its load is a number, and not the zero with a sign.
pub proof fn law_total_of_one_guest_is_its_own(s: monitor::State)
    requires
        s.vms.len() == 1,
        !s.vms[0].cpu_pct.is_nan(),
        s.vms[0].cpu_pct.bits != 0x8000_0000,
    ensures
        table_rows(s).len() == 3,
        forall|k: int| 5 <= k < 9 ==> (#[trigger] table_rows(s)[2][k]).text == table_rows(s)[0][k].text,
{
    let g = s.vms[0];
    let none = Seq::<model::Guest>::empty();
    assert(s.vms =~= seq![g]);
    law_sums_add_up(none, none, g, |g: model::Guest| g.mem_mb);
    law_sums_add_up(seq![g], none, g, |g: model::Guest| g.mem_mb);
    law_sums_add_up(seq![g], none, g, |g: model::Guest| g.disk_read_bps);
    law_sums_add_up(seq![g], none, g, |g: model::Guest| g.disk_write_bps);
    law_sums_add_up(seq![g], none, g, |g: model::Guest| g.net_rx_bps);
    law_sums_add_up(seq![g], none, g, |g: model::Guest| g.net_tx_bps);
    let loads = s.vms.map_values(|g: model::Guest| g.cpu_pct);
    assert(loads =~= seq![g.cpu_pct]);
    single::law_sum_of_one_is_its_own(g.cpu_pct);
    law_total_row_sums_every_figure(s);
    law_cells_show_what_their_headings_name(s, 0);
}

/// The title names the number of guests, one of them in the singular.
pub proof fn law_title_names_the_number_of_guests(n: nat)
    ensures
        title(n).len() == 3,
        title(n)[0].text == "Abyss-Top"@,
        title(n)[1].text == " | KVM Hypervisor Monitor  "@,
        n == 1 ==> title(n)[2].text == "[1 VM]"@,
        n != 1 ==> title(n)[2].text == "["@ + figures::decimal(n) + " VMs]"@,
        title(n)[2].tint == Tint::Yellow,
        n == 1 ==> vm_count_text(n) == "1 VM"@,
        n != 1 ==> vm_count_text(n) == figures::decimal(n) + " VMs"@,
{
    reveal_strlit("[");
    reveal_strlit("]");
    reveal_strlit(" VM");
    reveal_strlit("s");
    reveal_strlit("[1 VM]");
    reveal_strlit("1 VM");
    reveal_strlit(" VMs");
    reveal_strlit(" VMs]");
    if n == 1 {
        assert(figures::decimal(1) =~= seq!['1']);
        assert(vm_count_text(n) =~= "1 VM"@);
        assert(title(n)[2].text =~= "[1 VM]"@);
    } else {
        assert(vm_count_text(n) =~= figures::decimal(n) + " VMs"@);
        assert(title(n)[2].text =~= "["@ + figures::decimal(n) + " VMs]"@);
    }
}

/// The title of the table names the order of the guests.
pub proof fn law_table_title_names_the_order()
    ensures
        table_title(SortBy::Cpu) == " Guests (sorted by CPU) "@,
        table_title(SortBy::DiskIo) == " Guests (sorted by disk I/O) "@,
        table_title(SortBy::NetIo) == " Guests (sorted by net I/O) "@,
        table_title(SortBy::Memory) == " Guests (sorted by memory) "@,
{
    reveal_strlit(" Guests (sorted by ");
    reveal_strlit(") ");
    reveal_strlit("CPU");
    reveal_strlit("disk I/O");
    reveal_strlit("net I/O");
    reveal_strlit("memory");
    reveal_strlit(" Guests (sorted by CPU) ");
    reveal_strlit(" Guests (sorted by disk I/O) ");
    reveal_strlit(" Guests (sorted by net I/O) ");
    reveal_strlit(" Guests (sorted by memory) ");
    assert(table_title(SortBy::Cpu) =~= " Guests (sorted by CPU) "@);
    assert(table_title(SortBy::DiskIo) =~= " Guests (sorted by disk I/O) "@);
    assert(table_title(SortBy::NetIo) =~= " Guests (sorted by net I/O) "@);
    assert(table_title(SortBy::Memory) =~= " Guests (sorted by memory) "@);
}

/// Where there are no guests the table says so, in one row with a cell for each heading.
pub proof fn law_no_guests_are_told(s: monitor::State)
    requires
        s.vms.len() == 0,
    ensures
        table_rows(s).len() == 1,
        table_rows(s)[0].len() == 9,
        table_rows(s)[0][1].text == "No running QEMU/KVM guests detected"@,
        forall|k: int| 0 <= k < 9 && k != 1 ==> (#[trigger] table_rows(s)[0][k]).text == "-"@,
{
}

/// Each vCPU has a row of its own, in order, and each cell shows what its heading names. The waiting
/// time is red from 20 percent on, yellow from 5 percent on and green below.
pub proof fn law_vcpu_cells_show_what_their_headings_name(vs: Seq<model::VCpu>, i: int)
    requires
        0 <= i < vs.len(),
    ensures
        vcpu_rows(vs).len() == vs.len(),
        ({
            let (v, row, heads) = (vs[i], vcpu_rows(vs)[i], detail_heads());
            &&& heads.len() == 5 && row.len() == 5
            &&& heads[0] == "TID"@ && row[0].text == figures::decimal(v.tid as nat)
            &&& heads[1] == "vCPU"@ && row[1].text == figures::decimal(v.vcpu_index as nat)
            &&& heads[2] == "pCPU"@ && row[2].text == figures::decimal(v.cur_cpu as nat)
            &&& heads[3] == "NUMA"@ && row[3].text == match v.numa_node {
                Some(node) => figures::decimal(node as nat),
                None => "-"@,
            }
            &&& heads[4] == "wait %"@ && row[4].text == figures::padded(
                figures::tenths(v.wait_pct),
                5,
            )
            &&& row[4].tint == Tint::Red <==> float::at_least(v.wait_pct, 20)
            &&& row[4].tint == Tint::Yellow <==> float::at_least(v.wait_pct, 5) && !float::at_least(
                v.wait_pct,
                20,
            )
            &&& row[4].tint == Tint::Green <==> !float::at_least(v.wait_pct, 5) && !float::at_least(
                v.wait_pct,
                20,
            )
        }),
{
}

/// What the detail view says where there is nothing to list.
pub proof fn law_missing_detail_is_told(d: model::Detail, node_count: nat)
    ensures
        detail_text(None, node_count) matches DetailText::NoData(line) && line.len() == 1
            && line[0].text == "No data yet…"@,
        detail_text(Some(d), node_count) == DetailText::Shown(
            vcpu_rows(d.vcpus),
            memory_line(d, node_count),
        ),
        vcpu_rows(Seq::empty()).len() == 1 && vcpu_rows(Seq::empty())[0].len() == 1
            && vcpu_rows(Seq::empty())[0][0].text
            == "No vCPU threads found (non-KVM accelerator, or guest just stopped)"@,
        node_count <= 1 ==> memory_line(d, node_count).len() == 1 && memory_line(
            d,
            node_count,
        )[0].text == "Memory locality: single-node host (N/A)"@,
        node_count > 1 && d.denied ==> memory_line(d, node_count).len() == 1 && memory_line(
            d,
            node_count,
        )[0].text
            == "Memory locality: permission denied — needs CAP_SYS_PTRACE (reinstall/upgrade abyss-top)"@
            && memory_line(d, node_count)[0].tint == Tint::Red,
        node_count > 1 && !d.denied && d.mem_by_node.len() == 0 ==> memory_line(d, node_count).len()
            == 1 && memory_line(d, node_count)[0].text == "Memory locality: no data"@,
{
}

/// On a host with several nodes the line on memory gives each node and its share in whole percent, in
/// order and with two spaces between. It ends with a mark if and only if two nodes have more than 5
/// percent each.
pub proof fn law_memory_line_gives_every_node(d: model::Detail, node_count: nat, i: int)
    requires
        node_count > 1,
        !d.denied,
        0 <= i < d.mem_by_node.len(),
    ensures
        ({
            let (line, n) = (memory_line(d, node_count), d.mem_by_node.len() as int);
            let is_split = exists|a: int, b: int|
                0 <= a < b < n && float::exceeds(#[trigger] d.mem_by_node[a].1, 5) && float::exceeds(
                    #[trigger] d.mem_by_node[b].1,
                    5,
                );
            &&& line[0].text == "Memory locality: "@
            &&& line[1 + 2 * i].text == "node"@ + figures::decimal(d.mem_by_node[i].0 as nat) + " "@
                + figures::units(d.mem_by_node[i].1) + "%"@
            &&& i > 0 ==> line[2 * i].text == "  "@
            &&& is_split ==> line.len() == 2 * n + 1 && line[2 * n].text == "  [split]"@ && line[2
                * n].tint == Tint::Red
            &&& !is_split ==> line.len() == 2 * n
        }),
{
    let shares = d.mem_by_node;
    lemma_node_fragments(shares, i);
    lemma_large_shares(shares);
    let line = memory_line(d, node_count);
    let head = seq![tinted("Memory locality: "@, Tint::Cyan)];
    let body = node_fragments(shares);
    assert(forall|k: int| 0 <= k < body.len() ==> #[trigger] line[k + 1] == body[k]);
    assert(line[1 + 2 * i] == body[2 * i]);
    if i > 0 {
        assert(line[2 * i] == body[2 * i - 1]);
    }
}

proof fn lemma_node_fragments(shares: Seq<(u32, float::Dyadic)>, i: int)
    requires
        0 <= i < shares.len(),
    ensures
        node_fragments(shares).len() == 2 * shares.len() - 1,
        node_fragments(shares)[2 * i] == tinted(node_text(shares[i]), Tint::White),
        i > 0 ==> node_fragments(shares)[2 * i - 1] == plain("  "@),
    decreases shares.len(),
{
    let rest = shares.drop_last();
    if rest.len() > 0 {
        lemma_node_fragments(rest, if i < rest.len() {
            i
        } else {
            0
        });
        if i < rest.len() {
            assert(rest[i] == shares[i]);
        }
    } else {
        assert(node_fragments(rest) =~= Seq::<Fragment>::empty());
    }
}

proof fn lemma_large_shares(shares: Seq<(u32, float::Dyadic)>)
    ensures
        large_shares(shares) > 1 <==> exists|a: int, b: int|
            0 <= a < b < shares.len() && float::exceeds(#[trigger] shares[a].1, 5)
                && float::exceeds(#[trigger] shares[b].1, 5),
        large_shares(shares) > 0 <==> exists|a: int|
            0 <= a < shares.len() && float::exceeds(#[trigger] shares[a].1, 5),
    decreases shares.len(),
{
    let large = |s: (u32, float::Dyadic)| float::exceeds(s.1, 5);
    if shares.len() > 0 {
        let rest = shares.drop_last();
        lemma_large_shares(rest);
        assert(shares =~= rest.push(shares.last()));
        rest.lemma_filter_push(shares.last(), large);
        assert(shares[shares.len() - 1] == shares.last());
        assert forall|k: int| 0 <= k < rest.len() implies #[trigger] rest[k] == shares[k] by {}
        if large_shares(rest) > 0 {
            let a = choose|a: int| 0 <= a < rest.len() && float::exceeds(#[trigger] rest[a].1, 5);
            assert(float::exceeds(shares[a].1, 5));
            if large(shares.last()) {
                assert(float::exceeds(shares[shares.len() - 1].1, 5));
            }
        }
        if large_shares(rest) > 1 {
            let (a, b) = choose|a: int, b: int|
                0 <= a < b < rest.len() && float::exceeds(#[trigger] rest[a].1, 5)
                    && float::exceeds(#[trigger] rest[b].1, 5);
            assert(float::exceeds(shares[a].1, 5) && float::exceeds(shares[b].1, 5));
        }
        if exists|a: int| 0 <= a < shares.len() && float::exceeds(#[trigger] shares[a].1, 5) {
            let a = choose|a: int| 0 <= a < shares.len() && float::exceeds(#[trigger] shares[a].1, 5);
            if a < rest.len() {
                assert(float::exceeds(rest[a].1, 5));
            }
        }
        if exists|a: int, b: int|
            0 <= a < b < shares.len() && float::exceeds(#[trigger] shares[a].1, 5)
                && float::exceeds(#[trigger] shares[b].1, 5) {
            let (a, b) = choose|a: int, b: int|
                0 <= a < b < shares.len() && float::exceeds(#[trigger] shares[a].1, 5)
                    && float::exceeds(#[trigger] shares[b].1, 5);
            assert(float::exceeds(rest[a].1, 5));
            if b < rest.len() {
                assert(float::exceeds(rest[b].1, 5));
            }
        }
    } else {
        assert(shares.filter(large).len() == 0) by {
            reveal(Seq::filter);
        }
    }
}

/// The footer gives the load of the host, its used and its whole memory in MB, the share of the used
/// one, and the keys.
pub proof fn law_footer_shows_the_host(host: HostStats)
    ensures
        ({
            let f = footer(host);
            &&& f.len() == 8
            &&& f[0].text == "Host "@ && f[1].text == "CPU "@ && f[4].text == "RAM "@
            &&& f[2].text == figures::padded(host.cpu_pct.text(), 5) + "%"@
            &&& f[5].text == figures::decimal(host.mem_used_mb as nat) + "/"@ + figures::decimal(
                host.mem_total_mb as nat,
            ) + " MB ("@ + figures::tenths(rates::used_share(host.mem_used_mb, host.mem_total_mb))
                + "%)"@
            &&& f[7].text == "↑↓ select · [Enter] detail · sort [C]pu [D]isk [N]et [M]em · [Q]uit"@
        }),
{
}

/// The load in the last row is the sum of the loads of all guests: for whole percents it is exact.
pub proof fn law_total_load_is_the_sum(vms: Seq<model::Guest>, loads: Seq<nat>)
    requires
        vms.len() == loads.len(),
        forall|i: int| 0 <= i < vms.len() ==> (#[trigger] vms[i]).cpu_pct == single::whole(loads[i]),
        single::count(loads) < 0x100_0000,
    ensures
        total_load(vms) == single::whole(single::count(loads)),
{
    let cpus = vms.map_values(|g: model::Guest| g.cpu_pct);
    assert forall|i: int| 0 <= i < cpus.len() implies #[trigger] cpus[i] == single::whole(loads[i]) by {
        assert(cpus[i] == vms[i].cpu_pct);
    }
    single::law_sum_of_whole_numbers(cpus, loads);
}

} // verus!
